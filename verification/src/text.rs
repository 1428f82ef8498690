//! Character-level helpers: Unicode whitespace, the case fold used for
//! marker search, substring search, and trimming.

use vstd::prelude::*;
use vstd::string::*;

verus! {

/// Whitespace, for tokenising and trimming: the Unicode `White_Space`
/// set, the one `str::split_whitespace`, `str::trim` and
/// `char::is_whitespace` use.
pub open spec fn is_space(c: char) -> bool {
    ||| c == '\u{9}'
    ||| c == '\u{a}'
    ||| c == '\u{b}'
    ||| c == '\u{c}'
    ||| c == '\u{d}'
    ||| c == ' '
    ||| c == '\u{85}'
    ||| c == '\u{a0}'
    ||| c == '\u{1680}'
    ||| c == '\u{2000}'
    ||| c == '\u{2001}'
    ||| c == '\u{2002}'
    ||| c == '\u{2003}'
    ||| c == '\u{2004}'
    ||| c == '\u{2005}'
    ||| c == '\u{2006}'
    ||| c == '\u{2007}'
    ||| c == '\u{2008}'
    ||| c == '\u{2009}'
    ||| c == '\u{200a}'
    ||| c == '\u{2028}'
    ||| c == '\u{2029}'
    ||| c == '\u{202f}'
    ||| c == '\u{205f}'
    ||| c == '\u{3000}'
}

pub fn is_space_exec(c: char) -> (r: bool)
    ensures
        r == is_space(c),
{
    c == '\u{9}' || c == '\u{a}' || c == '\u{b}' || c == '\u{c}' || c == '\u{d}' || c == ' '
        || c == '\u{85}' || c == '\u{a0}' || c == '\u{1680}' || c == '\u{2000}' || c == '\u{2001}'
        || c == '\u{2002}' || c == '\u{2003}' || c == '\u{2004}' || c == '\u{2005}'
        || c == '\u{2006}' || c == '\u{2007}' || c == '\u{2008}' || c == '\u{2009}'
        || c == '\u{200a}' || c == '\u{2028}' || c == '\u{2029}' || c == '\u{202f}'
        || c == '\u{205f}' || c == '\u{3000}'
}

/// The upper-case image of one character, as far as an ASCII-only
/// search can see it.  It agrees with the full Unicode uppercase
/// mapping (the one `str::to_uppercase` applies) on every character
/// whose uppercase contains an ASCII character: the ASCII letters, the
/// dotless i and long s, the sharp s, the apostrophe-n, the j with
/// caron, the five letters whose uppercase gains a modifier or
/// combining mark, and the seven Latin ligatures.  Every other
/// character's uppercase holds
/// no ASCII at all, so such a character is kept as it stands: a search
/// for an ASCII-only pattern cannot tell the difference.
pub open spec fn upper_seq(c: char) -> Seq<char> {
    if 97 <= c as u32 && c as u32 <= 122 {
        seq![((c as u8) - 32) as char]
    } else if c == '\u{df}' {
        seq!['S', 'S']
    } else if c == '\u{131}' {
        seq!['I']
    } else if c == '\u{149}' {
        seq!['\u{2bc}', 'N']
    } else if c == '\u{17f}' {
        seq!['S']
    } else if c == '\u{1f0}' {
        seq!['J', '\u{30c}']
    } else if c == '\u{1e96}' {
        seq!['H', '\u{331}']
    } else if c == '\u{1e97}' {
        seq!['T', '\u{308}']
    } else if c == '\u{1e98}' {
        seq!['W', '\u{30a}']
    } else if c == '\u{1e99}' {
        seq!['Y', '\u{30a}']
    } else if c == '\u{1e9a}' {
        seq!['A', '\u{2be}']
    } else if c == '\u{fb00}' {
        seq!['F', 'F']
    } else if c == '\u{fb01}' {
        seq!['F', 'I']
    } else if c == '\u{fb02}' {
        seq!['F', 'L']
    } else if c == '\u{fb03}' {
        seq!['F', 'F', 'I']
    } else if c == '\u{fb04}' {
        seq!['F', 'F', 'L']
    } else if c == '\u{fb05}' {
        seq!['S', 'T']
    } else if c == '\u{fb06}' {
        seq!['S', 'T']
    } else {
        seq![c]
    }
}

pub fn upper_chars(c: char) -> (v: Vec<char>)
    ensures
        v@ == upper_seq(c),
{
    let mut v: Vec<char> = Vec::new();
    let u = c as u32;
    if 97 <= u && u <= 122 {
        v.push((c as u8 - 32) as char);
    } else if c == '\u{df}' {
        v.push('S');
        v.push('S');
    } else if c == '\u{131}' {
        v.push('I');
    } else if c == '\u{149}' {
        v.push('\u{2bc}');
        v.push('N');
    } else if c == '\u{17f}' {
        v.push('S');
    } else if c == '\u{1f0}' {
        v.push('J');
        v.push('\u{30c}');
    } else if c == '\u{1e96}' {
        v.push('H');
        v.push('\u{331}');
    } else if c == '\u{1e97}' {
        v.push('T');
        v.push('\u{308}');
    } else if c == '\u{1e98}' {
        v.push('W');
        v.push('\u{30a}');
    } else if c == '\u{1e99}' {
        v.push('Y');
        v.push('\u{30a}');
    } else if c == '\u{1e9a}' {
        v.push('A');
        v.push('\u{2be}');
    } else if c == '\u{fb00}' {
        v.push('F');
        v.push('F');
    } else if c == '\u{fb01}' {
        v.push('F');
        v.push('I');
    } else if c == '\u{fb02}' {
        v.push('F');
        v.push('L');
    } else if c == '\u{fb03}' {
        v.push('F');
        v.push('F');
        v.push('I');
    } else if c == '\u{fb04}' {
        v.push('F');
        v.push('F');
        v.push('L');
    } else if c == '\u{fb05}' {
        v.push('S');
        v.push('T');
    } else if c == '\u{fb06}' {
        v.push('S');
        v.push('T');
    } else {
        v.push(c);
    }
    proof {
        assert(v@ =~= upper_seq(c));
    }
    v
}

/// The upper-cased image of a whole line, character by character.
pub open spec fn fold_seq(s: Seq<char>) -> Seq<char>
    decreases s.len(),
{
    if s.len() == 0 {
        Seq::empty()
    } else {
        fold_seq(s.drop_last()) + upper_seq(s.last())
    }
}

/// The upper-cased characters of a string.
pub fn fold_str(line: &str) -> (v: Vec<char>)
    ensures
        v@ == fold_seq(line@),
{
    let n = line.unicode_len();
    let mut v: Vec<char> = Vec::new();
    let mut i: usize = 0;
    proof {
        assert(v@ =~= fold_seq(line@.take(0)));
    }
    while i < n
        invariant
            0 <= i <= n,
            n == line@.len(),
            v@ == fold_seq(line@.take(i as int)),
        decreases n - i,
    {
        let c = line.get_char(i);
        let mut e = upper_chars(c);
        v.append(&mut e);
        proof {
            assert(line@.take(i + 1).drop_last() =~= line@.take(i as int));
            assert(line@.take(i + 1).last() == line@[i as int]);
        }
        i = i + 1;
    }
    proof {
        assert(line@.take(n as int) =~= line@);
    }
    v
}

/// `pat` stands letter for letter in `s` at position `i`.
pub open spec fn matches_at(s: Seq<char>, pat: Seq<char>, i: int) -> bool {
    &&& 0 <= i
    &&& i + pat.len() <= s.len()
    &&& forall|j: int| 0 <= j < pat.len() ==> s[i + j] == pat[j]
}

/// `s` contains `pat` as a substring.
pub open spec fn contains_seq(s: Seq<char>, pat: Seq<char>) -> bool {
    exists|i: int| matches_at(s, pat, i)
}

/// `line` contains `pat` once upper-cased; `pat` is given upper-case.
pub open spec fn contains_ci(line: Seq<char>, pat: Seq<char>) -> bool {
    contains_seq(fold_seq(line), pat)
}

/// Plain substring search.
pub fn find_seq(chars: &Vec<char>, pat: &str) -> (b: bool)
    ensures
        b == contains_seq(chars@, pat@),
{
    let n = chars.len();
    let m = pat.unicode_len();
    if m > n {
        return false;
    }
    let mut i: usize = 0;
    while i <= n - m
        invariant
            0 <= i <= n - m + 1,
            m <= n,
            n == chars@.len(),
            m == pat@.len(),
            forall|k: int| 0 <= k < i ==> !matches_at(chars@, pat@, k),
        decreases n - m + 1 - i,
    {
        let mut j: usize = 0;
        let mut ok = true;
        while j < m
            invariant
                0 <= j <= m,
                i + m <= n,
                n == chars@.len(),
                m == pat@.len(),
                ok == (forall|l: int| 0 <= l < j ==> chars@[i + l] == pat@[l]),
            decreases m - j,
        {
            if chars[i + j] != pat.get_char(j) {
                ok = false;
            }
            j = j + 1;
        }
        if ok {
            proof {
                assert(matches_at(chars@, pat@, i as int));
            }
            return true;
        }
        i = i + 1;
    }
    proof {
        assert forall|k: int| !matches_at(chars@, pat@, k) by {
            if 0 <= k <= n - m {
                assert(!matches_at(chars@, pat@, k));
            }
        }
    }
    false
}

/// The characters of a string, one `char` per element.
pub fn str_chars(s: &str) -> (v: Vec<char>)
    ensures
        v@ == s@,
{
    let n = s.unicode_len();
    let mut v: Vec<char> = Vec::new();
    let mut i: usize = 0;
    while i < n
        invariant
            i <= n,
            n == s@.len(),
            v@ == s@.take(i as int),
        decreases n - i,
    {
        v.push(s.get_char(i));
        proof {
            assert(v@ =~= s@.take(i + 1));
        }
        i = i + 1;
    }
    proof {
        assert(v@ =~= s@);
    }
    v
}

pub open spec fn drop_leading(s: Seq<char>) -> Seq<char>
    decreases s.len(),
{
    if s.len() > 0 && is_space(s[0]) {
        drop_leading(s.drop_first())
    } else {
        s
    }
}

pub open spec fn drop_trailing(s: Seq<char>) -> Seq<char>
    decreases s.len(),
{
    if s.len() > 0 && is_space(s.last()) {
        drop_trailing(s.drop_last())
    } else {
        s
    }
}

/// `s` without leading and trailing whitespace.
pub open spec fn trim_spec(s: Seq<char>) -> Seq<char> {
    drop_trailing(drop_leading(s))
}

proof fn lemma_drop_leading(s: Seq<char>, a: int)
    requires
        0 <= a <= s.len(),
        forall|j: int| 0 <= j < a ==> is_space(s[j]),
        a < s.len() ==> !is_space(s[a]),
    ensures
        drop_leading(s) == s.skip(a),
    decreases a,
{
    if a == 0 {
        assert(drop_leading(s) =~= s.skip(0));
    } else {
        assert forall|j: int| 0 <= j < a - 1 implies is_space(#[trigger] s.drop_first()[j]) by {
            assert(s.drop_first()[j] == s[j + 1]);
        }
        if a - 1 < s.drop_first().len() {
            assert(s.drop_first()[a - 1] == s[a]);
        }
        lemma_drop_leading(s.drop_first(), a - 1);
        assert(s.drop_first().skip(a - 1) =~= s.skip(a));
    }
}

proof fn lemma_drop_trailing(t: Seq<char>, k: int)
    requires
        0 <= k <= t.len(),
        forall|j: int| k <= j < t.len() ==> is_space(t[j]),
        k > 0 ==> !is_space(t[k - 1]),
    ensures
        drop_trailing(t) == t.take(k),
    decreases t.len(),
{
    if k == t.len() {
        assert(drop_trailing(t) =~= t.take(k));
    } else {
        assert(is_space(t.last()));
        assert forall|j: int| k <= j < t.drop_last().len() implies is_space(
            #[trigger] t.drop_last()[j],
        ) by {
            assert(t.drop_last()[j] == t[j]);
        }
        lemma_drop_trailing(t.drop_last(), k);
        assert(t.drop_last().take(k) =~= t.take(k));
    }
}

/// `s` with surrounding whitespace removed, as a fresh string.
pub fn trim_str(s: &str) -> (r: String)
    ensures
        r@ == trim_spec(s@),
{
    let n = s.unicode_len();
    let mut a: usize = 0;
    while a < n && is_space_exec(s.get_char(a))
        invariant
            0 <= a <= n,
            n == s@.len(),
            forall|j: int| 0 <= j < a ==> is_space(s@[j]),
        decreases n - a,
    {
        a = a + 1;
    }
    proof {
        lemma_drop_leading(s@, a as int);
    }
    if a == n {
        proof {
            assert(s@.skip(n as int) =~= Seq::<char>::empty());
        }
        return String::new();
    }
    let mut b: usize = n;
    while b > a && is_space_exec(s.get_char(b - 1))
        invariant
            a <= b <= n,
            n == s@.len(),
            forall|j: int| b <= j < n ==> is_space(s@[j]),
        decreases b,
    {
        b = b - 1;
    }
    proof {
        let t = s@.skip(a as int);
        assert(!is_space(s@[a as int]));
        if b == a {
            assert(is_space(s@[a as int]));
        }
        assert(b > a);
        assert(!is_space(s@[b - 1]));
        assert forall|j: int| b - a <= j < t.len() implies is_space(#[trigger] t[j]) by {
            assert(t[j] == s@[a + j]);
        }
        assert(t[b - a - 1] == s@[b - 1]);
        lemma_drop_trailing(t, b - a);
        assert(t.take(b - a) =~= s@.subrange(a as int, b as int));
    }
    let sub = s.substring_char(a, b);
    String::from_str(sub)
}

} // verus!
