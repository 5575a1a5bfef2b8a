//! Helpers on names and generated text.

use vstd::prelude::*;

verus! {

/// The standard library's `String::push`: afterwards the string holds what it
/// held before, followed by the given character.
pub assume_specification[ String::push ](s: &mut String, ch: char)
    ensures
        final(s)@ == old(s)@.push(ch),
;

/// Whether `i` is the first position at which `x` occurs in `s`.
pub open spec fn is_first<T>(s: Seq<T>, x: T, i: int) -> bool {
    &&& 0 <= i < s.len()
    &&& s[i] == x
    &&& forall|j: int| 0 <= j < i ==> s[j] != x
}

/// The first position at which `x` occurs in a sequence that contains it.
pub open spec fn first_index<T>(s: Seq<T>, x: T) -> int {
    choose|i: int| is_first(s, x, i)
}

/// There is only one first position.
pub proof fn lemma_first_index<T>(s: Seq<T>, x: T, i: int)
    requires
        is_first(s, x, i),
    ensures
        first_index(s, x) == i,
        s.contains(x),
{
    let c = first_index(s, x);
    assert(is_first(s, x, c));
    if c < i {
        assert(s[c] != x);
    }
    if i < c {
        assert(s[i] != x);
    }
}

/// What a sequence contains, it contains at a first position.
pub proof fn lemma_first_exists<T>(s: Seq<T>, x: T)
    requires
        s.contains(x),
    ensures
        is_first(s, x, first_index(s, x)),
{
    let w = choose|i: int| 0 <= i < s.len() && s[i] == x;
    lemma_first_below(s, x, w);
}

proof fn lemma_first_below<T>(s: Seq<T>, x: T, w: int)
    requires
        0 <= w < s.len(),
        s[w] == x,
    ensures
        exists|i: int| is_first(s, x, i),
    decreases w,
{
    if exists|j: int| 0 <= j < w && s[j] == x {
        let j = choose|j: int| 0 <= j < w && s[j] == x;
        lemma_first_below(s, x, j);
    } else {
        assert(is_first(s, x, w));
    }
}

/// The position of the first `.` in a text that has one.
pub open spec fn first_dot(s: Seq<char>) -> int {
    first_index(s, '.')
}

/// Splits a text at its first `.`: what stands before it and what stands
/// after it. `None` when the text holds no `.`.
pub fn split_at_dot(s: &str) -> (r: Option<(String, String)>)
    ensures
        match r {
            Some((head, tail)) => {
                &&& s@.contains('.')
                &&& head@ == s@.take(first_dot(s@))
                &&& tail@ == s@.skip(first_dot(s@) + 1)
            },
            None => !s@.contains('.'),
        },
{
    let mut head = String::new();
    let mut tail = String::new();
    let mut seen = false;
    let ghost mut k: int = 0;
    for c in it: s.chars()
        invariant
            it.seq() == s@,
            !seen ==> head@ == s@.take(it.index() as int) && tail@.len() == 0,
            !seen ==> forall|j: int| 0 <= j < it.index() ==> s@[j] != '.',
            seen ==> is_first(s@, '.', k) && k < it.index(),
            seen ==> head@ == s@.take(k) && tail@ == s@.subrange(k + 1, it.index() as int),
    {
        let ghost i = it.index() as int;
        if seen {
            tail.push(c);
            assert(s@.subrange(k + 1, i + 1) == s@.subrange(k + 1, i).push(c));
        } else if c == '.' {
            seen = true;
            proof {
                k = i;
                assert(s@.subrange(k + 1, i + 1) == Seq::<char>::empty());
                assert(tail@ == Seq::<char>::empty());
            }
        } else {
            head.push(c);
            assert(s@.take(i + 1) == s@.take(i).push(c));
        }
    }
    if seen {
        proof {
            lemma_first_index(s@, '.', k);
            assert(s@.subrange(k + 1, s@.len() as int) == s@.skip(k + 1));
        }
        Some((head, tail))
    } else {
        assert(!s@.contains('.'));
        None
    }
}

/// A text with every `.` turned into `_`.
pub open spec fn dots_replaced(s: Seq<char>) -> Seq<char> {
    Seq::new(s.len(), |i: int| if s[i] == '.' { '_' } else { s[i] })
}

/// Turns every `.` of a name into `_`, so that a qualified chip name can
/// serve as an identifier in generated code.
pub fn replace_dots(s: &str) -> (r: String)
    ensures
        r@ == dots_replaced(s@),
{
    let mut out = String::new();
    for c in it: s.chars()
        invariant
            it.seq() == s@,
            out@ == dots_replaced(s@.take(it.index() as int)),
    {
        if c == '.' {
            out.push('_');
        } else {
            out.push(c);
        }
        assert(out@ == dots_replaced(s@.take(it.index() + 1)));
    }
    assert(s@.take(s@.len() as int) == s@);
    out
}

/// The texts of `parts`, in order, with `sep` between each two.
pub open spec fn joined(parts: Seq<Seq<char>>, sep: Seq<char>) -> Seq<char>
    decreases parts.len(),
{
    if parts.len() == 0 {
        Seq::empty()
    } else if parts.len() == 1 {
        parts[0]
    } else {
        joined(parts.drop_last(), sep) + sep + parts.last()
    }
}

/// Joins names with a separator between each two.
pub fn join(parts: &Vec<String>, sep: &str) -> (r: String)
    ensures
        r@ == joined(parts.deep_view(), sep@),
{
    let mut out = String::new();
    let mut i: usize = 0;
    while i < parts.len()
        invariant
            i <= parts.len(),
            out@ == joined(parts.deep_view().take(i as int), sep@),
        decreases parts.len() - i,
    {
        let ghost done = parts.deep_view().take(i as int);
        let ghost next = parts.deep_view().take(i + 1);
        assert(next.drop_last() == done);
        assert(next.last() == parts[i as int]@);
        if i > 0 {
            out.append(sep);
        } else {
            assert(Seq::<char>::empty() + parts[i as int]@ == parts[i as int]@);
        }
        out.append(parts[i].as_str());
        i = i + 1;
    }
    assert(parts.deep_view().take(i as int) == parts.deep_view());
    out
}

/// The character of a decimal digit.
pub open spec fn digit_char(d: nat) -> char {
    if d == 0 {
        '0'
    } else if d == 1 {
        '1'
    } else if d == 2 {
        '2'
    } else if d == 3 {
        '3'
    } else if d == 4 {
        '4'
    } else if d == 5 {
        '5'
    } else if d == 6 {
        '6'
    } else if d == 7 {
        '7'
    } else if d == 8 {
        '8'
    } else {
        '9'
    }
}

/// The decimal digits of a number, most significant first.
pub open spec fn decimal(n: nat) -> Seq<char>
    decreases n,
{
    if n < 10 {
        seq![digit_char(n)]
    } else {
        decimal(n / 10).push(digit_char(n % 10))
    }
}

fn digit(d: usize) -> (c: char)
    requires
        d < 10,
    ensures
        c == digit_char(d as nat),
{
    if d == 0 {
        '0'
    } else if d == 1 {
        '1'
    } else if d == 2 {
        '2'
    } else if d == 3 {
        '3'
    } else if d == 4 {
        '4'
    } else if d == 5 {
        '5'
    } else if d == 6 {
        '6'
    } else if d == 7 {
        '7'
    } else if d == 8 {
        '8'
    } else {
        '9'
    }
}

/// Appends the decimal digits of `n` to `out`.
pub fn push_decimal(out: &mut String, n: usize)
    ensures
        final(out)@ == old(out)@ + decimal(n as nat),
    decreases n,
{
    if n < 10 {
        out.push(digit(n));
        assert(old(out)@.push(digit_char(n as nat)) == old(out)@ + seq![digit_char(n as nat)]);
    } else {
        push_decimal(out, n / 10);
        out.push(digit(n % 10));
        assert((old(out)@ + decimal((n / 10) as nat)).push(digit_char((n % 10) as nat))
            == old(out)@ + decimal((n / 10) as nat).push(digit_char((n % 10) as nat)));
    }
}

/// Finds a name in a list: the first position that holds it.
pub fn position(names: &Vec<String>, name: &String) -> (r: Option<usize>)
    ensures
        match r {
            Some(i) => is_first(names.deep_view(), name@, i as int),
            None => !names.deep_view().contains(name@),
        },
{
    let mut i: usize = 0;
    while i < names.len()
        invariant
            i <= names.len(),
            forall|j: int| 0 <= j < i ==> names.deep_view()[j] != name@,
        decreases names.len() - i,
    {
        if names[i] == *name {
            assert(names.deep_view()[i as int] == name@);
            return Some(i);
        }
        i = i + 1;
    }
    None
}

/// A copy of a list of names.
pub fn clone_names(names: &Vec<String>) -> (r: Vec<String>)
    ensures
        r.deep_view() == names.deep_view(),
{
    let mut out: Vec<String> = Vec::new();
    let mut i: usize = 0;
    while i < names.len()
        invariant
            i <= names.len(),
            out.deep_view() == names.deep_view().take(i as int),
        decreases names.len() - i,
    {
        let ghost before = out.deep_view();
        out.push(names[i].clone());
        assert(out.deep_view() == before.push(names[i as int]@));
        assert(names.deep_view().take(i + 1) == names.deep_view().take(i as int).push(names[i as int]@));
        i = i + 1;
    }
    assert(names.deep_view().take(i as int) == names.deep_view());
    out
}

} // verus!
