//! ASCII case folding and substring search.
use vstd::prelude::*;
use vstd::string::*;

verus! {

/// `c` with an ASCII capital letter made small; any other character unchanged.
pub open spec fn ascii_fold(c: char) -> char {
    if 'A' <= c && c <= 'Z' {
        ((c as u8) + 32) as char
    } else {
        c
    }
}

pub open spec fn ascii_lower(s: Seq<char>) -> Seq<char> {
    s.map_values(|c: char| ascii_fold(c))
}

/// Whether `needle` occurs in `hay` as a run of consecutive characters.
pub open spec fn occurs_in(hay: Seq<char>, needle: Seq<char>) -> bool {
    exists|i: int|
        0 <= i && i + needle.len() <= hay.len() && #[trigger] hay.subrange(i, i + needle.len())
            == needle
}

fn fold_char(c: char) -> (r: char)
    ensures
        r == ascii_fold(c),
{
    if 'A' <= c && c <= 'Z' {
        ((c as u8) + 32) as char
    } else {
        c
    }
}

fn folded_chars(s: &str) -> (r: Vec<char>)
    ensures
        r@ == ascii_lower(s@),
{
    let len = s.unicode_len();
    let mut out: Vec<char> = Vec::new();
    let mut i: usize = 0;
    while i < len
        invariant
            len == s@.len(),
            i <= len,
            out@ =~= ascii_lower(s@.subrange(0, i as int)),
        decreases len - i,
    {
        let c = fold_char(s.get_char(i));
        out.push(c);
        i = i + 1;
        assert(out@ =~= ascii_lower(s@.subrange(0, i as int)));
    }
    assert(s@.subrange(0, len as int) =~= s@);
    out
}

/// Whether `needle` occurs in `haystack` when ASCII letters are compared
/// without regard to case.
pub fn contains_ignoring_ascii_case(haystack: &str, needle: &str) -> (r: bool)
    ensures
        r == occurs_in(ascii_lower(haystack@), ascii_lower(needle@)),
{
    let h = folded_chars(haystack);
    let n = folded_chars(needle);
    let hl = h.len();
    let nl = n.len();
    if nl == 0 {
        assert(h@.subrange(0, 0int + n@.len()) =~= n@);
        return true;
    }
    if nl > hl {
        return false;
    }
    let mut i: usize = 0;
    while i <= hl - nl
        invariant
            h@ == ascii_lower(haystack@),
            n@ == ascii_lower(needle@),
            hl == h@.len(),
            nl == n@.len(),
            1 <= nl <= hl,
            i <= hl - nl + 1,
            forall|k: int| 0 <= k < i ==> #[trigger] h@.subrange(k, k + n@.len()) != n@,
        decreases hl - nl + 1 - i,
    {
        let mut j: usize = 0;
        let mut same = true;
        while j < n.len()
            invariant
                hl == h@.len(),
                nl == n@.len(),
                i + n@.len() <= h@.len(),
                j <= n@.len(),
                same == (forall|t: int| 0 <= t < j ==> h@[i + t] == n@[t]),
            decreases n@.len() - j,
        {
            same = same && h[i + j] == n[j];
            j = j + 1;
        }
        if same {
            assert(h@.subrange(i as int, i + n@.len()) =~= n@);
            return true;
        }
        assert(h@.subrange(i as int, i + n@.len()) != n@) by {
            let t = choose|t: int| 0 <= t < n@.len() && h@[i + t] != n@[t];
            assert(h@.subrange(i as int, i + n@.len())[t] == h@[i + t]);
        }
        i = i + 1;
    }
    assert forall|k: int| 0 <= k && k + n@.len() <= h@.len() implies #[trigger] h@.subrange(k, k + n@.len()) != n@ by {
        assert(k < i);
    }
    false
}

/// Whether `s` spells `lower_word` when its ASCII letters are made small.
pub fn equals_ignoring_ascii_case(s: &str, lower_word: &str) -> (r: bool)
    ensures
        r == (ascii_lower(s@) == lower_word@),
{
    let folded = folded_chars(s);
    let n = lower_word.unicode_len();
    if folded.len() != n {
        return false;
    }
    let mut i: usize = 0;
    while i < n
        invariant
            folded@ == ascii_lower(s@),
            n == lower_word@.len(),
            folded@.len() == n,
            i <= n,
            forall|j: int| 0 <= j < i ==> folded@[j] == lower_word@[j],
        decreases n - i,
    {
        if folded[i] != lower_word.get_char(i) {
            return false;
        }
        i = i + 1;
    }
    assert(folded@ =~= lower_word@);
    true
}

} // verus!
