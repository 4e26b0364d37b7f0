//! Moving between `str`, `String` and sequences of characters.
use vstd::prelude::*;

verus! {

/// Relies on `String::push`: the character is added at the end.
#[verifier::external_body]
pub(crate) fn push_char(s: &mut String, c: char)
    ensures
        final(s)@ == old(s)@.push(c),
{
    s.push(c)
}

/// The characters of `s`, in order.
pub fn str_chars(s: &str) -> (r: Vec<char>)
    ensures
        r@ == s@,
{
    let n = s.unicode_len();
    let mut r: Vec<char> = Vec::new();
    let mut i: usize = 0;
    while i < n
        invariant
            n == s@.len(),
            i <= n,
            r@ == s@.subrange(0, i as int),
        decreases n - i,
    {
        r.push(s.get_char(i));
        i = i + 1;
    }
    r
}

/// The string made of `t[a..b]`.
pub fn slice_string(t: &Vec<char>, a: usize, b: usize) -> (r: String)
    requires
        a <= b <= t@.len(),
    ensures
        r@ == t@.subrange(a as int, b as int),
{
    let mut r = String::new();
    let mut i: usize = a;
    while i < b
        invariant
            a <= i <= b <= t@.len(),
            r@ == t@.subrange(a as int, i as int),
        decreases b - i,
    {
        push_char(&mut r, t[i]);
        assert(t@.subrange(a as int, i + 1) == t@.subrange(a as int, i as int).push(t@[i as int]));
        i = i + 1;
    }
    r
}

/// Appends `t[a..b]` to `s`.
pub fn push_slice(s: &mut String, t: &Vec<char>, a: usize, b: usize)
    requires
        a <= b <= t@.len(),
    ensures
        final(s)@ == old(s)@ + t@.subrange(a as int, b as int),
{
    let mut i: usize = a;
    while i < b
        invariant
            a <= i <= b <= t@.len(),
            s@ == old(s)@ + t@.subrange(a as int, i as int),
        decreases b - i,
    {
        push_char(s, t[i]);
        assert(t@.subrange(a as int, i + 1) == t@.subrange(a as int, i as int).push(t@[i as int]));
        assert(old(s)@ + t@.subrange(a as int, i + 1) == (old(s)@ + t@.subrange(a as int, i as int)).push(t@[i as int]));
        i = i + 1;
    }
}

/// Appends the characters of `x` to `s`.
pub fn push_str(s: &mut String, x: &str)
    ensures
        final(s)@ == old(s)@ + x@,
{
    let t = str_chars(x);
    push_slice(s, &t, 0, t.len());
    assert(t@.subrange(0, t@.len() as int) == t@);
}

/// Whether two strings hold the same characters.
pub fn same_text(a: &str, b: &str) -> (r: bool)
    ensures
        r == (a@ == b@),
{
    let x = str_chars(a);
    let y = str_chars(b);
    if x.len() != y.len() {
        return false;
    }
    let mut i: usize = 0;
    while i < x.len()
        invariant
            x@ == a@,
            y@ == b@,
            x@.len() == y@.len(),
            i <= x@.len(),
            forall|j: int| 0 <= j < i ==> x@[j] == y@[j],
        decreases x@.len() - i,
    {
        if x[i] != y[i] {
            return false;
        }
        i = i + 1;
    }
    assert(x@ =~= y@);
    true
}

} // verus!
