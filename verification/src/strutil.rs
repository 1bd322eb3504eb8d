//! Small verified utilities over strings and characters.

use vstd::prelude::*;
use vstd::string::*;

verus! {

/// ASCII lower-casing of one character; everything outside `'A'..='Z'`
/// is left unchanged.
pub open spec fn to_lower(c: char) -> char {
    match c {
        'A' => 'a',
        'B' => 'b',
        'C' => 'c',
        'D' => 'd',
        'E' => 'e',
        'F' => 'f',
        'G' => 'g',
        'H' => 'h',
        'I' => 'i',
        'J' => 'j',
        'K' => 'k',
        'L' => 'l',
        'M' => 'm',
        'N' => 'n',
        'O' => 'o',
        'P' => 'p',
        'Q' => 'q',
        'R' => 'r',
        'S' => 's',
        'T' => 't',
        'U' => 'u',
        'V' => 'v',
        'W' => 'w',
        'X' => 'x',
        'Y' => 'y',
        'Z' => 'z',
        _ => c,
    }
}

/// ASCII lower-casing of a character sequence, position by position.
pub open spec fn lower_seq(s: Seq<char>) -> Seq<char> {
    s.map_values(|c: char| to_lower(c))
}

/// Lower-cases one character, as `to_lower` describes.
pub fn lower_char(c: char) -> (r: char)
    ensures
        r == to_lower(c),
{
    match c {
        'A' => 'a',
        'B' => 'b',
        'C' => 'c',
        'D' => 'd',
        'E' => 'e',
        'F' => 'f',
        'G' => 'g',
        'H' => 'h',
        'I' => 'i',
        'J' => 'j',
        'K' => 'k',
        'L' => 'l',
        'M' => 'm',
        'N' => 'n',
        'O' => 'o',
        'P' => 'p',
        'Q' => 'q',
        'R' => 'r',
        'S' => 's',
        'T' => 't',
        'U' => 'u',
        'V' => 'v',
        'W' => 'w',
        'X' => 'x',
        'Y' => 'y',
        'Z' => 'z',
        _ => c,
    }
}

/// Exact (case-sensitive) equality of two string slices.
pub fn str_eq(a: &str, b: &str) -> (r: bool)
    ensures
        r == (a@ == b@),
{
    let an: usize = a.unicode_len();
    let bn: usize = b.unicode_len();
    if an != bn {
        return false;
    }
    let mut i: usize = 0;
    while i < an
        invariant
            i <= an,
            an == a@.len(),
            an == b@.len(),
            forall|j: int| 0 <= j < i ==> a@[j] == b@[j],
        decreases an - i,
    {
        let ca: char = a.get_char(i);
        let cb: char = b.get_char(i);
        if ca != cb {
            assert(a@[i as int] != b@[i as int]);
            return false;
        }
        i = i + 1;
    }
    proof {
        assert(a@ =~= b@);
    }
    true
}

/// Case-insensitive (ASCII) equality of a string slice against a pattern,
/// both compared after lower-casing.
pub fn str_eq_fold(a: &str, b: &str) -> (r: bool)
    ensures
        r == (lower_seq(a@) == lower_seq(b@)),
{
    let an: usize = a.unicode_len();
    let bn: usize = b.unicode_len();
    if an != bn {
        proof {
            assert(lower_seq(a@).len() == an);
            assert(lower_seq(b@).len() == bn);
        }
        return false;
    }
    let mut i: usize = 0;
    while i < an
        invariant
            i <= an,
            an == a@.len(),
            an == b@.len(),
            forall|j: int| 0 <= j < i ==> to_lower(a@[j]) == to_lower(b@[j]),
        decreases an - i,
    {
        let ca: char = lower_char(a.get_char(i));
        let cb: char = lower_char(b.get_char(i));
        if ca != cb {
            assert(lower_seq(a@)[i as int] != lower_seq(b@)[i as int]);
            return false;
        }
        i = i + 1;
    }
    proof {
        assert(lower_seq(a@) =~= lower_seq(b@));
    }
    true
}

/// The number of consecutive newline characters at the end of a sequence.
pub open spec fn trailing_newlines(s: Seq<char>) -> int
    decreases s.len(),
{
    if s.len() == 0 {
        0
    } else if s.last() != '\n' {
        0
    } else {
        1 + trailing_newlines(s.drop_last())
    }
}

/// `trailing_newlines` never exceeds the length of the sequence.
pub proof fn lemma_trailing_newlines_le_len(s: Seq<char>)
    ensures
        0 <= trailing_newlines(s) <= s.len(),
    decreases s.len(),
{
    if s.len() > 0 && s.last() == '\n' {
        lemma_trailing_newlines_le_len(s.drop_last());
    }
}





/// `k` newline characters.
pub open spec fn newlines(k: nat) -> Seq<char> {
    Seq::new(k, |i: int| '\n')
}

/// `k` space characters.
pub open spec fn spaces(k: nat) -> Seq<char> {
    Seq::new(k, |i: int| ' ')
}

/// The trailing newline run of a concatenation: the right part's run, and
/// the left part's too when the right part is newlines throughout.
pub proof fn lemma_trailing_concat(a: Seq<char>, b: Seq<char>)
    ensures
        b.len() == 0 ==> trailing_newlines(a + b) == trailing_newlines(a),
        b.len() > 0 ==> trailing_newlines(a + b) == (if trailing_newlines(b) == b.len() {
            trailing_newlines(a) + b.len()
        } else {
            trailing_newlines(b)
        }),
    decreases b.len(),
{
    if b.len() == 0 {
        assert(a + b =~= a);
    } else {
        assert((a + b).len() > 0);
        assert((a + b).last() == b.last());
        assert((a + b).drop_last() =~= a + b.drop_last());
        lemma_trailing_concat(a, b.drop_last());
        lemma_trailing_newlines_le_len(b.drop_last());
        if b.last() == '\n' {
            assert(trailing_newlines(a + b) == 1 + trailing_newlines(a + b.drop_last()));
            assert(trailing_newlines(b) == 1 + trailing_newlines(b.drop_last()));
        } else {
            assert(trailing_newlines(a + b) == 0);
            assert(trailing_newlines(b) == 0);
        }
    }
}

/// A run of newlines is all trailing newlines.
pub proof fn lemma_trailing_of_newlines(k: nat)
    ensures
        trailing_newlines(newlines(k)) == k,
    decreases k,
{
    if k > 0 {
        assert(newlines(k).last() == '\n');
        assert(newlines(k).drop_last() =~= newlines((k - 1) as nat));
        lemma_trailing_of_newlines((k - 1) as nat);
    }
}


/// A suffix scan that stops at the first character that is not a newline
/// has counted the trailing run.
pub proof fn lemma_trailing_suffix(s: Seq<char>, i: int)
    requires
        0 <= i <= s.len(),
        forall|j: int| i <= j < s.len() ==> s[j] == '\n',
        i == 0 || s[i - 1] != '\n',
    ensures
        trailing_newlines(s) == s.len() - i,
    decreases s.len(),
{
    if s.len() > 0 {
        if s.last() == '\n' {
            assert(i < s.len());
            assert(s.drop_last().len() == s.len() - 1);
            assert(forall|j: int| i <= j < s.len() - 1 ==> s.drop_last()[j] == '\n');
            if i > 0 {
                assert(s.drop_last()[i - 1] == s[i - 1]);
            }
            lemma_trailing_suffix(s.drop_last(), i);
        } else {
            assert(i == s.len());
        }
    }
}

/// Counts the trailing newline run of a string slice.
pub fn trailing_nl_of(s: &str) -> (r: usize)
    ensures
        r == trailing_newlines(s@),
{
    let n: usize = s.unicode_len();
    let mut i: usize = n;
    while i > 0
        invariant
            i <= n,
            n == s@.len(),
            forall|j: int| i <= j < n ==> s@[j] == '\n',
        decreases i,
    {
        if s.get_char(i - 1) != '\n' {
            proof {
                lemma_trailing_suffix(s@, i as int);
            }
            return n - i;
        }
        i = i - 1;
    }
    proof {
        lemma_trailing_suffix(s@, 0);
    }
    n
}

} // verus!
