use crate::error::InputError;
use crate::text::{split_words, views, words};
use vstd::prelude::*;
use vstd::string::StrSliceExecFns;

verus! {

/// The names on the line that declares the items: the primary ones, and
/// the secondary ones that follow the separator.
pub struct ItemLine {
    pub primary: Vec<String>,
    pub secondary: Vec<String>,
}

/// The character that parts the primary items from the secondary ones.
pub open spec fn bar() -> char {
    '|'
}

/// How often the separator occurs in `s`.
pub open spec fn bars(s: Seq<char>) -> nat
    decreases s.len(),
{
    if s.len() == 0 {
        0
    } else {
        bars(s.drop_last()) + if s.last() == bar() {
            1nat
        } else {
            0nat
        }
    }
}

/// The place of the first separator in `s`, or the length of `s` if there
/// is none.
pub open spec fn first_bar(s: Seq<char>) -> int
    decreases s.len(),
{
    if s.len() == 0 {
        0
    } else if s[0] == bar() {
        0
    } else {
        1 + first_bar(s.drop_first())
    }
}

/// The names that the line declares, or why it is refused: the line must
/// be ASCII, hold the separator at most once, and name a primary item.
pub open spec fn item_line(s: Seq<char>) -> Result<(Seq<Seq<char>>, Seq<Seq<char>>), InputError> {
    if !vstd::utf8::is_ascii_chars(s) {
        Err(InputError::NotAscii)
    } else if bars(s) > 1 {
        Err(InputError::SeparatorRepeated)
    } else if words(s.take(first_bar(s))).len() == 0 {
        Err(InputError::NoPrimaryItems)
    } else if first_bar(s) < s.len() {
        Ok((words(s.take(first_bar(s))), words(s.skip(first_bar(s) + 1))))
    } else {
        Ok((words(s), Seq::empty()))
    }
}

/// Before the place of the first separator stands no separator, and at
/// that place stands one unless it is the end.
pub proof fn lemma_first_bar(s: Seq<char>)
    ensures
        0 <= first_bar(s) <= s.len(),
        first_bar(s) < s.len() ==> s[first_bar(s)] == bar(),
        forall|k: int| 0 <= k < first_bar(s) ==> #[trigger] s[k] != bar(),
    decreases s.len(),
{
    if s.len() > 0 && s[0] != bar() {
        let t = s.drop_first();
        lemma_first_bar(t);
        assert forall|k: int| 0 <= k < first_bar(s) implies #[trigger] s[k] != bar() by {
            if k > 0 {
                assert(s[k] == t[k - 1]);
            }
        }
    }
}

/// A place before which no separator stands, and which holds one or is
/// the end, is the place of the first separator.
pub proof fn lemma_first_bar_is(s: Seq<char>, n: int)
    requires
        0 <= n <= s.len(),
        forall|k: int| 0 <= k < n ==> #[trigger] s[k] != bar(),
        n < s.len() ==> s[n] == bar(),
    ensures
        first_bar(s) == n,
    decreases s.len(),
{
    if n > 0 {
        let t = s.drop_first();
        assert forall|k: int| 0 <= k < n - 1 implies #[trigger] t[k] != bar() by {
            assert(t[k] == s[k + 1]);
        }
        lemma_first_bar_is(t, n - 1);
    }
}

/// Whether the line holds nothing but white space.
pub fn is_blank(line: &str) -> (r: bool)
    ensures
        r == (words(line@).len() == 0),
{
    let w = split_words(line);
    proof {
        assert(views(w@).len() == w@.len());
    }
    w.len() == 0
}

/// Reads the line that declares the items: the names of the primary
/// items, then, after the separator `|` if there is one, those of the
/// secondary items.
pub fn parse_items(line: &str) -> (r: Result<ItemLine, InputError>)
    ensures
        match r {
            Ok(items) => item_line(line@) == Ok::<_, InputError>(
                (views(items.primary@), views(items.secondary@)),
            ),
            Err(e) => item_line(line@) == Err::<(Seq<Seq<char>>, Seq<Seq<char>>), _>(e),
        },
{
    if !line.is_ascii() {
        return Err(InputError::NotAscii);
    }
    let n = line.unicode_len();
    let mut count: usize = 0;
    let mut first: usize = n;
    let mut i: usize = 0;
    proof {
        assert(line@.take(0) =~= Seq::<char>::empty());
    }
    while i < n
        invariant
            n == line@.len(),
            line.is_ascii(),
            0 <= i <= n,
            count == bars(line@.take(i as int)),
            count <= i,
            count == 0 ==> first == n && forall|k: int| 0 <= k < i ==> #[trigger] line@[k] != bar(),
            count > 0 ==> first < i && line@[first as int] == bar() && forall|k: int|
                0 <= k < first ==> #[trigger] line@[k] != bar(),
        decreases n - i,
    {
        proof {
            assert(line@.take(i + 1).drop_last() =~= line@.take(i as int));
            assert(line@.take(i + 1).last() == line@[i as int]);
        }
        if line.get_ascii(i) == 124u8 {
            if count == 0 {
                first = i;
            }
            count += 1;
        }
        i += 1;
    }
    proof {
        assert(line@.take(n as int) =~= line@);
        lemma_first_bar_is(line@, first as int);
    }
    if count > 1 {
        return Err(InputError::SeparatorRepeated);
    }
    let head = line.substring_ascii(0, first);
    proof {
        assert(line@.subrange(0, first as int) =~= line@.take(first as int));
    }
    let primary = split_words(head);
    proof {
        assert(views(primary@).len() == primary@.len());
    }
    if primary.len() == 0 {
        return Err(InputError::NoPrimaryItems);
    }
    if first < n {
        let tail = line.substring_ascii(first + 1, n);
        proof {
            assert(line@.subrange(first + 1, n as int) =~= line@.skip(first + 1));
        }
        let secondary = split_words(tail);
        Ok(ItemLine { primary, secondary })
    } else {
        let secondary: Vec<String> = Vec::new();
        proof {
            assert(line@.take(n as int) =~= line@);
            assert(views(secondary@) =~= Seq::<Seq<char>>::empty());
        }
        Ok(ItemLine { primary, secondary })
    }
}

} // verus!
