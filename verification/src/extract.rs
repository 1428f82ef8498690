//! Extraction heuristics: the first dotted-quad token of a line, and the
//! first whitespace-delimited token that parses as an integer in
//! `[100, 600)`.  Both are syntactic heuristics, not validators: any
//! token of four octets counts as an address, and any number in range
//! counts as a status code, whatever it actually denotes on the line.

use vstd::prelude::*;
use vstd::string::*;
use crate::text::is_space;
use crate::text::is_space_exec;
use crate::text::str_chars;

verus! {

/// Length of the leading whitespace-free run of `s`.
pub open spec fn token_end(s: Seq<char>) -> int
    decreases s.len(),
{
    if s.len() == 0 || is_space(s[0]) {
        0
    } else {
        1 + token_end(s.drop_first())
    }
}

pub proof fn lemma_token_end(s: Seq<char>)
    ensures
        0 <= token_end(s) <= s.len(),
        forall|j: int| 0 <= j < token_end(s) ==> !is_space(s[j]),
        token_end(s) < s.len() ==> is_space(s[token_end(s)]),
        s.len() > 0 && !is_space(s[0]) ==> token_end(s) >= 1,
    decreases s.len(),
{
    if s.len() == 0 || is_space(s[0]) {
    } else {
        lemma_token_end(s.drop_first());
        assert forall|j: int| 0 <= j < token_end(s) implies !is_space(s[j]) by {
            if j >= 1 {
                assert(!is_space(s.drop_first()[j - 1]));
            }
        }
        if token_end(s) < s.len() {
            assert(is_space(s.drop_first()[token_end(s) - 1]));
        }
    }
}

/// A scan that stops at the first whitespace character pins `token_end`.
pub proof fn lemma_token_end_is(s: Seq<char>, k: int)
    requires
        0 <= k <= s.len(),
        forall|j: int| 0 <= j < k ==> !is_space(s[j]),
        k < s.len() ==> is_space(s[k]),
    ensures
        token_end(s) == k,
{
    lemma_token_end(s);
    if token_end(s) < k {
        assert(is_space(s[token_end(s)]));
        assert(!is_space(s[token_end(s)]));
    }
    if token_end(s) > k {
        assert(!is_space(s[k]));
    }
}

/// Length of the leading dot-free run of `t`.
pub open spec fn part_end(t: Seq<char>) -> int
    decreases t.len(),
{
    if t.len() == 0 || t[0] == '.' {
        0
    } else {
        1 + part_end(t.drop_first())
    }
}

pub proof fn lemma_part_end(t: Seq<char>)
    ensures
        0 <= part_end(t) <= t.len(),
        forall|j: int| 0 <= j < part_end(t) ==> t[j] != '.',
        part_end(t) < t.len() ==> t[part_end(t)] == '.',
        t.len() > 0 && t[0] != '.' ==> part_end(t) >= 1,
    decreases t.len(),
{
    if t.len() == 0 || t[0] == '.' {
    } else {
        lemma_part_end(t.drop_first());
        assert forall|j: int| 0 <= j < part_end(t) implies t[j] != '.' by {
            if j >= 1 {
                assert(t.drop_first()[j - 1] != '.');
            }
        }
        if part_end(t) < t.len() {
            assert(t.drop_first()[part_end(t) - 1] == '.');
        }
    }
}

/// A scan that stops at the first dot pins `part_end`.
pub proof fn lemma_part_end_is(t: Seq<char>, k: int)
    requires
        0 <= k <= t.len(),
        forall|j: int| 0 <= j < k ==> t[j] != '.',
        k < t.len() ==> t[k] == '.',
    ensures
        part_end(t) == k,
{
    lemma_part_end(t);
    if part_end(t) < k {
        assert(t[part_end(t)] == '.');
        assert(t[part_end(t)] != '.');
    }
    if part_end(t) > k {
        assert(t[k] != '.');
    }
}

/// The parts of `t` split on `'.'`, as `str::split('.')` yields them:
/// empty parts are kept, and a token without dots is one part.
pub open spec fn dot_parts(t: Seq<char>) -> Seq<Seq<char>>
    decreases t.len(),
{
    let p = part_end(t);
    if p == t.len() {
        seq![t]
    } else {
        proof {
            lemma_part_end(t);
        }
        seq![t.take(p)] + dot_parts(t.skip(p + 1))
    }
}

pub open spec fn is_digit(c: char) -> bool {
    48 <= c as u32 && c as u32 <= 57
}

pub open spec fn digit_val(c: char) -> int {
    c as u32 - 48
}

pub open spec fn all_digits(q: Seq<char>) -> bool {
    forall|j: int| 0 <= j < q.len() ==> is_digit(q[j])
}

/// The value of a digit string read in base ten.
pub open spec fn dec_val(q: Seq<char>) -> int
    decreases q.len(),
{
    if q.len() == 0 {
        0
    } else {
        dec_val(q.drop_last()) * 10 + digit_val(q.last())
    }
}

/// The digits of `p` once an optional leading `'+'` sign is dropped,
/// mirroring what `str::parse` accepts for unsigned integers.
pub open spec fn unsigned_body(p: Seq<char>) -> Seq<char> {
    if p.len() > 0 && p[0] == '+' {
        p.drop_first()
    } else {
        p
    }
}

/// `p` parses as an unsigned decimal integer of unbounded width.
pub open spec fn parses_as_uint(p: Seq<char>) -> bool {
    unsigned_body(p).len() > 0 && all_digits(unsigned_body(p))
}

pub open spec fn uint_val(p: Seq<char>) -> int {
    dec_val(unsigned_body(p))
}

/// One 8-bit octet: digits (with optional sign) whose value is at most 255.
pub open spec fn is_octet(p: Seq<char>) -> bool {
    parses_as_uint(p) && uint_val(p) <= 255
}

/// A dotted quad: exactly four parts split on `'.'`, each an octet.
pub open spec fn is_ip_token(t: Seq<char>) -> bool {
    &&& dot_parts(t).len() == 4
    &&& forall|j: int| 0 <= j < dot_parts(t).len() ==> is_octet(#[trigger] dot_parts(t)[j])
}

/// A status-code token: an integer in `[100, 600)`.
pub open spec fn is_status_token(t: Seq<char>) -> bool {
    parses_as_uint(t) && 100 <= uint_val(t) < 600
}

/// The first whitespace-delimited token of `s` that is a dotted quad.
pub open spec fn first_ip_token(s: Seq<char>) -> Option<Seq<char>>
    decreases s.len(),
{
    if s.len() == 0 {
        None
    } else if is_space(s[0]) {
        first_ip_token(s.drop_first())
    } else {
        proof {
            lemma_token_end(s);
        }
        if is_ip_token(s.take(token_end(s))) {
            Some(s.take(token_end(s)))
        } else {
            first_ip_token(s.skip(token_end(s)))
        }
    }
}

/// The first whitespace-delimited token of `s` that is a status code.
pub open spec fn first_status_token(s: Seq<char>) -> Option<Seq<char>>
    decreases s.len(),
{
    if s.len() == 0 {
        None
    } else if is_space(s[0]) {
        first_status_token(s.drop_first())
    } else {
        proof {
            lemma_token_end(s);
        }
        if is_status_token(s.take(token_end(s))) {
            Some(s.take(token_end(s)))
        } else {
            first_status_token(s.skip(token_end(s)))
        }
    }
}

/// What `first_status_token` yields is indeed a status-code token.
pub proof fn lemma_first_status_is(s: Seq<char>)
    ensures
        first_status_token(s) is Some ==> is_status_token(first_status_token(s)->0),
    decreases s.len(),
{
    if s.len() == 0 {
    } else if is_space(s[0]) {
        lemma_first_status_is(s.drop_first());
    } else {
        lemma_token_end(s);
        if !is_status_token(s.take(token_end(s))) {
            lemma_first_status_is(s.skip(token_end(s)));
        }
    }
}

pub proof fn lemma_dec_val_nonneg(q: Seq<char>)
    requires
        all_digits(q),
    ensures
        dec_val(q) >= 0,
    decreases q.len(),
{
    if q.len() > 0 {
        assert(all_digits(q.drop_last()));
        lemma_dec_val_nonneg(q.drop_last());
    }
}

/// Reading more digits never shrinks the value.
pub proof fn lemma_dec_val_monotone(q: Seq<char>, i: int)
    requires
        0 <= i <= q.len(),
        all_digits(q),
    ensures
        dec_val(q.take(i)) <= dec_val(q),
    decreases q.len() - i,
{
    if i == q.len() {
        assert(q.take(i) =~= q);
    } else {
        assert(q.take(i + 1).drop_last() =~= q.take(i));
        assert(q.take(i + 1).last() == q[i]);
        assert(all_digits(q.take(i)));
        lemma_dec_val_nonneg(q.take(i));
        assert(dec_val(q.take(i + 1)) == dec_val(q.take(i)) * 10 + digit_val(q[i]));
        lemma_dec_val_monotone(q, i + 1);
    }
}

/// The characters of `v` between `from` and `to`.
fn seg(v: &Vec<char>, from: usize, to: usize) -> (t: Vec<char>)
    requires
        from <= to <= v@.len(),
    ensures
        t@ == v@.subrange(from as int, to as int),
{
    let mut t: Vec<char> = Vec::new();
    let mut i: usize = from;
    while i < to
        invariant
            from <= i <= to <= v@.len(),
            t@ == v@.subrange(from as int, i as int),
        decreases to - i,
    {
        t.push(v[i]);
        proof {
            assert(t@ =~= v@.subrange(from as int, i + 1));
        }
        i = i + 1;
    }
    t
}

/// Parses `t` as an unsigned decimal integer of value at most `bound`,
/// as `str::parse` for an unsigned type would read it.
fn parse_bounded(t: &Vec<char>, bound: u16) -> (r: Option<u16>)
    ensures
        r is Some <==> parses_as_uint(t@) && uint_val(t@) <= bound,
        r is Some ==> r->0 == uint_val(t@),
{
    let n = t.len();
    let start: usize = if n > 0 && t[0] == '+' {
        1
    } else {
        0
    };
    let ghost q = unsigned_body(t@);
    proof {
        assert(q =~= t@.skip(start as int));
    }
    if start == n {
        return None;
    }
    let mut val: u32 = 0;
    let mut i: usize = start;
    while i < n
        invariant
            start <= i <= n,
            n == t@.len(),
            q == unsigned_body(t@),
            q == t@.skip(start as int),
            q.len() == n - start,
            all_digits(q.take(i - start)),
            val == dec_val(q.take(i - start)),
            val <= bound,
        decreases n - i,
    {
        let c = t[i];
        let u = c as u32;
        if !(48 <= u && u <= 57) {
            assert(!is_digit(q[i - start]));
            return None;
        }
        proof {
            assert(q.take(i - start + 1).drop_last() =~= q.take(i - start));
            assert(q.take(i - start + 1).last() == q[i - start]);
            assert(q[i - start] == t@[i as int]);
            assert(all_digits(q.take(i - start + 1)));
        }
        let d = u - 48;
        let v2 = val * 10 + d;
        if v2 > bound as u32 {
            proof {
                if parses_as_uint(t@) {
                    lemma_dec_val_monotone(q, i - start + 1);
                }
            }
            return None;
        }
        val = v2;
        i = i + 1;
    }
    proof {
        assert(q.take(n - start) =~= q);
    }
    Some(val as u16)
}

/// Whether `t` is a dotted quad of four octets.
fn is_ip_token_exec(t: &Vec<char>) -> (b: bool)
    ensures
        b == is_ip_token(t@),
{
    let n = t.len();
    let mut pos: usize = 0;
    let mut nparts: usize = 0;
    let ghost mut done: Seq<Seq<char>> = Seq::empty();
    proof {
        assert(t@.skip(0) =~= t@);
        assert(done + dot_parts(t@) =~= dot_parts(t@));
    }
    loop
        invariant
            0 <= pos <= n,
            n == t@.len(),
            nparts <= 3,
            done.len() == nparts,
            dot_parts(t@) == done + dot_parts(t@.skip(pos as int)),
            forall|j: int| 0 <= j < done.len() ==> is_octet(#[trigger] done[j]),
        decreases n - pos,
    {
        let ghost rem = t@.skip(pos as int);
        let mut p: usize = pos;
        while p < n && t[p] != '.'
            invariant
                pos <= p <= n,
                n == t@.len(),
                forall|j: int| pos <= j < p ==> t@[j] != '.',
            decreases n - p,
        {
            p = p + 1;
        }
        proof {
            assert forall|j: int| 0 <= j < p - pos implies rem[j] != '.' by {
                assert(rem[j] == t@[pos + j]);
            }
            if p < n {
                assert(rem[p - pos] == t@[p as int]);
            }
            lemma_part_end_is(rem, p - pos);
        }
        let part = seg(t, pos, p);
        proof {
            assert(part@ =~= rem.take(p - pos));
        }
        let ok = parse_bounded(&part, 255).is_some();
        if p == n {
            proof {
                assert(rem.take(p - pos) =~= rem);
                assert(dot_parts(rem) == seq![rem]);
                assert(dot_parts(t@).len() == done.len() + 1);
                assert(dot_parts(t@)[done.len() as int] == rem);
            }
            if nparts == 3 && ok {
                proof {
                    assert forall|j: int| 0 <= j < dot_parts(t@).len() implies is_octet(
                        #[trigger] dot_parts(t@)[j],
                    ) by {
                        if j < done.len() {
                            assert(dot_parts(t@)[j] == done[j]);
                        } else {
                            assert(dot_parts(t@)[j] == rem);
                        }
                    }
                }
                return true;
            } else {
                return false;
            }
        } else {
            proof {
                assert(dot_parts(rem) == seq![rem.take(p - pos)] + dot_parts(
                    rem.skip(p - pos + 1),
                ));
                assert(rem.skip(p - pos + 1) =~= t@.skip(p + 1));
                assert(dot_parts(rem)[0] == part@);
                assert(dot_parts(t@)[done.len() as int] == part@);
            }
            if !ok {
                proof {
                    assert(!is_octet(dot_parts(t@)[done.len() as int]));
                }
                return false;
            }
            if nparts == 3 {
                proof {
                    assert(dot_parts(t@).len() >= done.len() + 1 + dot_parts(
                        t@.skip(p + 1),
                    ).len());
                    assert(dot_parts(t@.skip(p + 1)).len() >= 1);
                }
                return false;
            }
            nparts = nparts + 1;
            proof {
                done = done.push(part@);
                assert(dot_parts(t@) =~= done + dot_parts(t@.skip(p + 1)));
            }
            pos = p + 1;
        }
    }
}

/// The first whitespace-delimited token of `line` that looks like a
/// dotted-quad address, if any: four parts split on `'.'`, each parsing
/// as an integer in `[0, 255]`.
pub fn extract_ip(line: &str) -> (r: Option<String>)
    ensures
        r.deep_view() == first_ip_token(line@),
        r is Some ==> is_ip_token(r->0@),
{
    let chars = str_chars(line);
    let n = chars.len();
    let mut i: usize = 0;
    proof {
        assert(line@.skip(0) =~= line@);
    }
    while i < n
        invariant
            0 <= i <= n,
            n == line@.len(),
            chars@ == line@,
            first_ip_token(line@) == first_ip_token(line@.skip(i as int)),
        decreases n - i,
    {
        let ghost rem = line@.skip(i as int);
        if is_space_exec(chars[i]) {
            proof {
                assert(rem[0] == line@[i as int]);
                assert(rem.drop_first() =~= line@.skip(i + 1));
            }
            i = i + 1;
        } else {
            let mut j: usize = i;
            while j < n && !is_space_exec(chars[j])
                invariant
                    i <= j <= n,
                    n == line@.len(),
                    chars@ == line@,
                    forall|k: int| i <= k < j ==> !is_space(line@[k]),
                decreases n - j,
            {
                j = j + 1;
            }
            proof {
                assert forall|k: int| 0 <= k < j - i implies !is_space(rem[k]) by {
                    assert(rem[k] == line@[i + k]);
                }
                if j < n {
                    assert(rem[j - i] == line@[j as int]);
                }
                lemma_token_end_is(rem, j - i);
                assert(rem[0] == line@[i as int]);
            }
            let tok = seg(&chars, i, j);
            proof {
                assert(tok@ =~= rem.take(j - i));
            }
            if is_ip_token_exec(&tok) {
                let s = line.substring_char(i, j);
                let out = String::from_str(s);
                proof {
                    assert(first_ip_token(rem) == Some(rem.take(j - i)));
                    assert(out@ =~= rem.take(j - i));
                }
                return Some(out);
            } else {
                proof {
                    assert(first_ip_token(rem) == first_ip_token(rem.skip(j - i)));
                    assert(rem.skip(j - i) =~= line@.skip(j as int));
                }
                i = j;
            }
        }
    }
    proof {
        assert(line@.skip(n as int) =~= Seq::<char>::empty());
    }
    None
}

/// The first whitespace-delimited token of `line` that parses as an
/// integer in `[100, 600)`, read as an HTTP status code.  Any number in
/// that range qualifies, whatever it denotes: the heuristic cannot tell
/// a status code from a port, a byte count or a PID in range.
pub fn extract_status_code(line: &str) -> (r: Option<u16>)
    ensures
        r is Some <==> first_status_token(line@) is Some,
        r is Some ==> r->0 == uint_val(first_status_token(line@)->0),
        r is Some ==> 100 <= r->0 < 600,
{
    let chars = str_chars(line);
    let n = chars.len();
    let mut i: usize = 0;
    proof {
        assert(line@.skip(0) =~= line@);
    }
    while i < n
        invariant
            0 <= i <= n,
            n == line@.len(),
            chars@ == line@,
            first_status_token(line@) == first_status_token(line@.skip(i as int)),
        decreases n - i,
    {
        let ghost rem = line@.skip(i as int);
        if is_space_exec(chars[i]) {
            proof {
                assert(rem[0] == line@[i as int]);
                assert(rem.drop_first() =~= line@.skip(i + 1));
            }
            i = i + 1;
        } else {
            let mut j: usize = i;
            while j < n && !is_space_exec(chars[j])
                invariant
                    i <= j <= n,
                    n == line@.len(),
                    chars@ == line@,
                    forall|k: int| i <= k < j ==> !is_space(line@[k]),
                decreases n - j,
            {
                j = j + 1;
            }
            proof {
                assert forall|k: int| 0 <= k < j - i implies !is_space(rem[k]) by {
                    assert(rem[k] == line@[i + k]);
                }
                if j < n {
                    assert(rem[j - i] == line@[j as int]);
                }
                lemma_token_end_is(rem, j - i);
                assert(rem[0] == line@[i as int]);
            }
            let tok = seg(&chars, i, j);
            proof {
                assert(tok@ =~= rem.take(j - i));
            }
            match parse_bounded(&tok, 599) {
                Some(v) if v >= 100 => {
                    proof {
                        assert(is_status_token(rem.take(j - i)));
                        assert(first_status_token(rem) == Some(rem.take(j - i)));
                    }
                    return Some(v);
                },
                _ => {
                    proof {
                        assert(!is_status_token(rem.take(j - i)));
                        assert(first_status_token(rem) == first_status_token(rem.skip(j - i)));
                        assert(rem.skip(j - i) =~= line@.skip(j as int));
                    }
                    i = j;
                },
            }
        }
    }
    proof {
        assert(line@.skip(n as int) =~= Seq::<char>::empty());
    }
    None
}

} // verus!
