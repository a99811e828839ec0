use vstd::prelude::*;
use vstd::string::*;

verus! {

/// The position of the first `'|'` in `s`, if any.
pub open spec fn first_bar(s: Seq<char>) -> Option<int>
    decreases s.len(),
{
    if s.len() == 0 {
        None
    } else if s[0] == '|' {
        Some(0)
    } else {
        match first_bar(s.drop_first()) {
            Some(i) => Some(i + 1),
            None => None,
        }
    }
}

/// A `DefaultDir` or `FileName` value holds `short|long`, or one name only.
/// The long name is what follows the first `'|'`, or the whole text.
pub open spec fn spec_long_name(s: Seq<char>) -> Seq<char> {
    match first_bar(s) {
        Some(i) => s.skip(i + 1),
        None => s,
    }
}

/// `first_bar` finds the first `'|'`: it is `Some(i)` exactly when `s[i]` is a bar
/// and no bar comes before it, and `None` exactly when `s` holds no bar.
pub proof fn lemma_first_bar(s: Seq<char>)
    ensures
        match first_bar(s) {
            Some(i) => 0 <= i < s.len() && s[i] == '|' && forall|j: int| 0 <= j < i ==> s[j] != '|',
            None => forall|j: int| 0 <= j < s.len() ==> s[j] != '|',
        },
    decreases s.len(),
{
    if s.len() > 0 && s[0] != '|' {
        lemma_first_bar(s.drop_first());
        match first_bar(s.drop_first()) {
            Some(i) => {
                assert forall|j: int| 0 <= j < i + 1 implies s[j] != '|' by {
                    if j > 0 {
                        assert(s[j] == s.drop_first()[j - 1]);
                    }
                }
            },
            None => {
                assert forall|j: int| 0 <= j < s.len() implies s[j] != '|' by {
                    if j > 0 {
                        assert(s[j] == s.drop_first()[j - 1]);
                    }
                }
            },
        }
    }
}

pub fn long_name(text: &str) -> (r: &str)
    ensures
        r@ == spec_long_name(text@),
{
    let n = text.unicode_len();
    let mut i: usize = 0;
    while i < n
        invariant
            n == text@.len(),
            i <= n,
            forall|j: int| 0 <= j < i ==> text@[j] != '|',
        decreases n - i,
    {
        if text.get_char(i) == '|' {
            proof {
                lemma_first_bar(text@);
            }
            return text.substring_char(i + 1, n);
        }
        i = i + 1;
    }
    proof {
        lemma_first_bar(text@);
    }
    text
}

} // verus!
