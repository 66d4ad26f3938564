//! Text building blocks: decimal numerals, comparison and search on strings.

use vstd::prelude::*;
use vstd::string::*;

verus! {

/// The decimal digit `d` as a character.
pub open spec fn digit_char(d: nat) -> char {
    ('0' as nat + d) as char
}

/// The decimal numeral of `n`, without leading zeros.
pub open spec fn decimal(n: nat) -> Seq<char>
    decreases n,
{
    if n < 10 {
        seq![digit_char(n)]
    } else {
        decimal(n / 10).push(digit_char(n % 10))
    }
}

fn digit_str(d: u64) -> (s: &'static str)
    requires
        d < 10,
    ensures
        s@ == seq![digit_char(d as nat)],
{
    proof {
        reveal_strlit("0");
        reveal_strlit("1");
        reveal_strlit("2");
        reveal_strlit("3");
        reveal_strlit("4");
        reveal_strlit("5");
        reveal_strlit("6");
        reveal_strlit("7");
        reveal_strlit("8");
        reveal_strlit("9");
    }
    let s: &'static str = match d {
        0 => "0",
        1 => "1",
        2 => "2",
        3 => "3",
        4 => "4",
        5 => "5",
        6 => "6",
        7 => "7",
        8 => "8",
        _ => "9",
    };
    assert(s@ =~= seq![digit_char(d as nat)]);
    s
}

/// Appends the decimal numeral of `n`.
pub fn push_decimal(out: &mut String, n: u64)
    ensures
        final(out)@ == old(out)@ + decimal(n as nat),
    decreases n,
{
    if n >= 10 {
        push_decimal(out, n / 10);
    }
    let ghost before = out@;
    out.append(digit_str(n % 10));
    proof {
        assert(out@ =~= before.push(digit_char(n as nat % 10)));
        if n < 10 {
            assert(out@ =~= old(out)@ + decimal(n as nat));
        } else {
            assert(out@ =~= old(out)@ + decimal(n as nat / 10).push(digit_char(n as nat % 10)));
        }
    }
}

/// The decimal numeral of `n`.
pub fn decimal_string(n: u64) -> (s: String)
    ensures
        s@ == decimal(n as nat),
{
    let mut s: String = String::new();
    push_decimal(&mut s, n);
    assert(s@ =~= decimal(n as nat));
    s
}

/// Whether two strings are the same.
pub fn same_text(a: &str, b: &str) -> (r: bool)
    ensures
        r == (a@ == b@),
{
    a.to_owned() == b.to_owned()
}

/// `a` followed by `b`.
pub fn join2(a: &str, b: &str) -> (s: String)
    ensures
        s@ == a@ + b@,
{
    let mut s: String = a.to_owned();
    s.append(b);
    s
}

/// `a`, `b` and `c` one after the other.
pub fn join3(a: &str, b: &str, c: &str) -> (s: String)
    ensures
        s@ == a@ + b@ + c@,
{
    let mut s: String = a.to_owned();
    s.append(b);
    s.append(c);
    s
}

/// Whether `p` occurs in `s` at index `i`.
pub open spec fn occurs_at(s: Seq<char>, p: Seq<char>, i: int) -> bool {
    0 <= i && i + p.len() <= s.len() && s.subrange(i, i + p.len()) == p
}

/// Whether `s` begins with `p`.
pub open spec fn has_prefix(s: Seq<char>, p: Seq<char>) -> bool {
    occurs_at(s, p, 0)
}

/// Whether `s` ends with `p`.
pub open spec fn has_suffix(s: Seq<char>, p: Seq<char>) -> bool {
    p.len() <= s.len() && occurs_at(s, p, s.len() - p.len())
}

/// Whether `p` occurs anywhere in `s`.
pub open spec fn has_infix(s: Seq<char>, p: Seq<char>) -> bool {
    exists|i: int| occurs_at(s, p, i)
}

/// The characters of a string.
pub fn chars_of(s: &str) -> (v: Vec<char>)
    ensures
        v@ == s@,
{
    let mut v: Vec<char> = Vec::new();
    for c in it: s.chars()
        invariant
            v@ == it.seq().take(it.index()),
            it.seq() == s@,
    {
        v.push(c);
        assert(it.seq().take(it.index() + 1) =~= it.seq().take(it.index()).push(c));
    }
    assert(s@.take(s@.len() as int) =~= s@);
    v
}

fn matches_at(s: &Vec<char>, p: &Vec<char>, at: usize) -> (r: bool)
    requires
        at + p.len() <= s.len(),
    ensures
        r == occurs_at(s@, p@, at as int),
{
    let mut i: usize = 0;
    while i < p.len()
        invariant
            i <= p@.len(),
            at + p.len() <= s.len(),
            forall|j: int| 0 <= j < i ==> s@[at + j] == p@[j],
        decreases p@.len() - i,
    {
        if s[at + i] != p[i] {
            assert(s@.subrange(at as int, at + p@.len())[i as int] != p@[i as int]);
            return false;
        }
        i = i + 1;
    }
    assert(s@.subrange(at as int, at + p@.len()) =~= p@);
    true
}

/// Whether `s` begins with `p`.
pub fn starts_with(s: &str, p: &str) -> (r: bool)
    ensures
        r == has_prefix(s@, p@),
{
    let sv: Vec<char> = chars_of(s);
    let pv: Vec<char> = chars_of(p);
    pv.len() <= sv.len() && matches_at(&sv, &pv, 0)
}

/// Whether `s` ends with `p`.
pub fn ends_with(s: &str, p: &str) -> (r: bool)
    ensures
        r == has_suffix(s@, p@),
{
    let sv: Vec<char> = chars_of(s);
    let pv: Vec<char> = chars_of(p);
    pv.len() <= sv.len() && matches_at(&sv, &pv, sv.len() - pv.len())
}

/// Whether `p` occurs anywhere in `s`.
pub fn contains(s: &str, p: &str) -> (r: bool)
    ensures
        r == has_infix(s@, p@),
{
    let sv: Vec<char> = chars_of(s);
    let pv: Vec<char> = chars_of(p);
    if pv.len() > sv.len() {
        assert(forall|i: int| !occurs_at(sv@, pv@, i));
        return false;
    }
    let last: usize = sv.len() - pv.len();
    let mut i: usize = 0;
    while i <= last
        invariant
            last == sv@.len() - pv@.len(),
            i <= last + 1,
            forall|j: int| 0 <= j < i ==> !occurs_at(sv@, pv@, j),
            sv@ == s@,
            pv@ == p@,
        decreases last + 1 - i,
    {
        if matches_at(&sv, &pv, i) {
            assert(occurs_at(s@, p@, i as int));
            return true;
        }
        if i == last {
            assert(forall|j: int| !occurs_at(sv@, pv@, j));
            return false;
        }
        i = i + 1;
    }
    assert(forall|j: int| !occurs_at(sv@, pv@, j));
    false
}

/// A list of bytes in square brackets, separated by commas.
pub open spec fn byte_list(s: Seq<u8>) -> Seq<char> {
    "["@ + byte_list_items(s) + "]"@
}

pub open spec fn byte_list_items(s: Seq<u8>) -> Seq<char>
    decreases s.len(),
{
    if s.len() == 0 {
        Seq::empty()
    } else if s.len() == 1 {
        decimal(s[0] as nat)
    } else {
        byte_list_items(s.drop_last()) + ", "@ + decimal(s.last() as nat)
    }
}

/// Appends a list of bytes in square brackets.
pub fn push_byte_list(out: &mut String, s: &[u8])
    ensures
        final(out)@ == old(out)@ + byte_list(s@),
{
    let ghost start = out@;
    out.append("[");
    let mut i: usize = 0;
    assert(out@ =~= start + "["@ + byte_list_items(s@.take(0)));
    while i < s.len()
        invariant
            i <= s.len(),
            out@ == start + "["@ + byte_list_items(s@.take(i as int)),
        decreases s.len() - i,
    {
        let ghost before = out@;
        if i > 0 {
            out.append(", ");
        }
        push_decimal(out, s[i] as u64);
        proof {
            let next = s@.take(i + 1);
            assert(next.drop_last() =~= s@.take(i as int));
            assert(next.last() == s@[i as int]);
            if i == 0 {
                assert(out@ =~= start + "["@ + byte_list_items(next));
            } else {
                assert(out@ =~= start + "["@ + byte_list_items(next));
            }
        }
        i = i + 1;
    }
    assert(s@.take(s@.len() as int) =~= s@);
    out.append("]");
    assert(out@ =~= start + byte_list(s@));
}

/// `s` without `p` at its end, where it ends in `p`.
pub open spec fn without_suffix(s: Seq<char>, p: Seq<char>) -> Seq<char> {
    if has_suffix(s, p) {
        s.take(s.len() - p.len())
    } else {
        s
    }
}

/// `s` without `p` at its end, where it ends in `p`.
pub fn trim_suffix(s: &str, p: &str) -> (r: String)
    ensures
        r@ == without_suffix(s@, p@),
{
    if ends_with(s, p) {
        let keep: usize = s.unicode_len() - p.unicode_len();
        let r: String = s.substring_char(0, keep).to_owned();
        assert(r@ =~= s@.take(keep as int));
        r
    } else {
        s.to_owned()
    }
}

/// `s` with every occurrence of `from`, found from left to right, replaced by
/// `to`. An empty `from` occurs in front of every character and at the end.
pub open spec fn replaced(s: Seq<char>, from: Seq<char>, to: Seq<char>) -> Seq<char>
    decreases s.len(),
{
    if from.len() == 0 {
        if s.len() == 0 {
            to
        } else {
            to + seq![s[0]] + replaced(s.skip(1), from, to)
        }
    } else if s.len() == 0 {
        s
    } else if has_prefix(s, from) {
        to + replaced(s.skip(from.len() as int), from, to)
    } else {
        seq![s[0]] + replaced(s.skip(1), from, to)
    }
}

/// `s` with every occurrence of `from`, found from left to right, replaced by
/// `to`.
pub fn replace(s: &str, from: &str, to: &str) -> (r: String)
    ensures
        r@ == replaced(s@, from@, to@),
{
    let sv: Vec<char> = chars_of(s);
    let fv: Vec<char> = chars_of(from);
    let mut r: String = String::new();
    let mut i: usize = 0;
    assert(sv@.skip(0) =~= sv@);
    assert(replaced(s@, from@, to@) =~= r@ + replaced(sv@.skip(0), from@, to@));
    while i < sv.len()
        invariant
            i <= sv@.len(),
            sv@ == s@,
            fv@ == from@,
            replaced(s@, from@, to@) == r@ + replaced(sv@.skip(i as int), from@, to@),
        decreases sv@.len() - i,
    {
        let ghost rest = sv@.skip(i as int);
        let ghost done = r@;
        if fv.len() > 0 && fv.len() <= sv.len() - i && matches_at(&sv, &fv, i) {
            r.append(to);
            proof {
                assert(sv@.subrange(i as int, i + fv@.len()) =~= rest.subrange(0, fv@.len() as int));
                assert(has_prefix(rest, from@));
                assert(rest.skip(fv@.len() as int) =~= sv@.skip(i + fv@.len()));
                assert(done + replaced(rest, from@, to@) =~= r@ + replaced(
                    sv@.skip(i + fv@.len()),
                    from@,
                    to@,
                ));
            }
            i = i + fv.len();
        } else {
            if fv.len() == 0 {
                r.append(to);
            }
            let one: &str = s.substring_char(i, i + 1);
            r.append(one);
            proof {
                assert(one@ =~= seq![rest[0]]);
                assert(rest.skip(1) =~= sv@.skip(i + 1));
                if fv@.len() > 0 && has_prefix(rest, from@) {
                    assert(sv@.subrange(i as int, i + fv@.len()) =~= rest.subrange(
                        0,
                        fv@.len() as int,
                    ));
                }
                assert(done + replaced(rest, from@, to@) =~= r@ + replaced(
                    sv@.skip(i + 1),
                    from@,
                    to@,
                ));
            }
            i = i + 1;
        }
    }
    if fv.len() == 0 {
        r.append(to);
    }
    assert(r@ =~= replaced(s@, from@, to@));
    r
}

/// Replacement leaves a text alone that does not hold what is to be replaced; where the
/// text begins with it, the other stands there, and the rest is gone through.
pub proof fn law_replacement_is_of_occurrences(
    s: Seq<char>,
    from: Seq<char>,
    to: Seq<char>,
    rest: Seq<char>,
)
    requires
        from.len() > 0,
    ensures
        !has_infix(s, from) ==> replaced(s, from, to) == s,
        replaced(from + rest, from, to) == to + replaced(rest, from, to),
    decreases s.len(),
{
    let t = from + rest;
    assert(t.subrange(0, from.len() as int) =~= from);
    assert(t.skip(from.len() as int) =~= rest);
    if !has_infix(s, from) && s.len() > 0 {
        let tail = s.skip(1);
        assert(!occurs_at(s, from, 0));
        assert(!has_infix(tail, from)) by {
            if has_infix(tail, from) {
                let i = choose|i: int| occurs_at(tail, from, i);
                assert(s.subrange(i + 1, i + 1 + from.len()) =~= tail.subrange(i, i + from.len()));
                assert(occurs_at(s, from, i + 1));
            }
        }
        law_replacement_is_of_occurrences(tail, from, to, rest);
        assert(seq![s[0]] + tail =~= s);
    }
}

} // verus!
