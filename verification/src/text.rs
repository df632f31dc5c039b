//! Small string utilities shared by the tokenizer, parser and evaluator.
use vstd::prelude::*;

verus! {

/// Wraps `String::push` (std): appends one character to the string.
#[verifier::external_body]
pub(crate) fn push_char(s: &mut String, c: char)
    ensures
        final(s)@ == old(s)@.push(c),
{
    s.push(c);
}

/// Appends the characters of `t` to `s`.
pub fn push_str(s: &mut String, t: &str)
    ensures
        final(s)@ == old(s)@ + t@,
{
    let ghost s0 = s@;
    let chars = str_to_chars(t);
    let mut k: usize = 0;
    while k < chars.len()
        invariant
            k <= chars@.len(),
            chars@ == t@,
            s@ == s0 + chars@.subrange(0, k as int),
        decreases chars@.len() - k,
    {
        push_char(s, chars[k]);
        k = k + 1;
        assert(s@ =~= s0 + chars@.subrange(0, k as int));
    }
    assert(chars@.subrange(0, k as int) =~= chars@);
}

/// The characters of a string slice, in order.
pub fn str_to_chars(s: &str) -> (v: Vec<char>)
    ensures
        v@ == s@,
{
    let mut v: Vec<char> = Vec::new();
    for c in it: s.chars()
        invariant
            v@ == it.seq().take(it.index() as int),
    {
        v.push(c);
    }
    v
}

/// A `String` holding the characters `v[i..j]`.
pub fn string_from_chars(v: &Vec<char>, i: usize, j: usize) -> (s: String)
    requires
        i <= j <= v@.len(),
    ensures
        s@ == v@.subrange(i as int, j as int),
{
    let mut s = String::new();
    let mut k = i;
    while k < j
        invariant
            i <= k <= j <= v@.len(),
            s@ == v@.subrange(i as int, k as int),
        decreases j - k,
    {
        push_char(&mut s, v[k]);
        k = k + 1;
        assert(s@ =~= v@.subrange(i as int, k as int));
    }
    s
}

/// A copy of a string slice as an owned `String`.
pub fn string_from_str(src: &str) -> (s: String)
    ensures
        s@ == src@,
{
    let chars = str_to_chars(src);
    string_from_chars(&chars, 0, chars.len())
}

/// The names joined with `.` between consecutive names.
pub open spec fn join_dotted(parts: Seq<Seq<char>>) -> Seq<char>
    decreases parts.len(),
{
    if parts.len() == 0 {
        Seq::empty()
    } else if parts.len() == 1 {
        parts[0]
    } else {
        join_dotted(parts.drop_last()) + seq!['.'] + parts.last()
    }
}

/// The views of a vector of strings.
pub open spec fn strings_view(v: Seq<String>) -> Seq<Seq<char>> {
    v.map_values(|s: String| s@)
}

/// Joins the strings with `.`, as `parts.join(".")` does.
pub fn join_with_dots(parts: &Vec<String>) -> (s: String)
    ensures
        s@ == join_dotted(strings_view(parts@)),
{
    let mut s = String::new();
    let mut k: usize = 0;
    while k < parts.len()
        invariant
            k <= parts@.len(),
            s@ == join_dotted(strings_view(parts@.take(k as int))),
        decreases parts@.len() - k,
    {
        let ghost before = s@;
        if k > 0 {
            push_char(&mut s, '.');
        }
        let part = parts[k].as_str();
        let chars = str_to_chars(part);
        let mut m: usize = 0;
        let ghost mid = s@;
        while m < chars.len()
            invariant
                m <= chars@.len(),
                chars@ == parts@[k as int]@,
                s@ == mid + chars@.take(m as int),
            decreases chars@.len() - m,
        {
            push_char(&mut s, chars[m]);
            m = m + 1;
            assert(s@ =~= mid + chars@.take(m as int));
        }
        proof {
            let pv = strings_view(parts@.take(k as int + 1));
            assert(pv.drop_last() =~= strings_view(parts@.take(k as int)));
            assert(pv.last() == parts@[k as int]@);
            assert(chars@.take(m as int) =~= chars@);
        }
        k = k + 1;
    }
    assert(parts@.take(k as int) =~= parts@);
    s
}

/// Whether a string holds the same characters as a string slice.
pub fn text_is(a: &String, b: &str) -> (r: bool)
    ensures
        r == (a@ == b@),
{
    let owned = string_from_str(b);
    *a == owned
}

} // verus!
