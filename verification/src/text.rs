//! Text primitives over `String`/`str`, specified on their character sequences.
use vstd::prelude::*;
use crate::order::{lex, lemma_lex_skip, lemma_lex_strict_total, strict_total};

verus! {

/// Result of comparing two keys.
#[derive(PartialEq, Eq, Structural, Clone, Copy, Debug)]
pub enum Order {
    Less,
    Equal,
    Greater,
}

/// Order on characters by code point; for UTF-8 text this is the byte order `str` uses.
pub open spec fn char_lt(a: char, b: char) -> bool {
    (a as u32) < (b as u32)
}

/// Order on texts: lexicographic by code point (the order of `String`).
pub open spec fn text_lt(a: Seq<char>, b: Seq<char>) -> bool {
    lex(a, b, |x: char, y: char| char_lt(x, y))
}

/// Order on tuples of texts: lexicographic, component by component.
pub open spec fn key_lt(a: Seq<Seq<char>>, b: Seq<Seq<char>>) -> bool {
    lex(a, b, |x: Seq<char>, y: Seq<char>| text_lt(x, y))
}

pub proof fn lemma_char_order()
    ensures
        strict_total(|x: char, y: char| char_lt(x, y)),
{
    let l = |x: char, y: char| char_lt(x, y);
    assert forall|x: char, y: char| x != y implies #[trigger] l(x, y) || #[trigger] l(y, x) by {
        vstd::utf8::char_u32_cast(x, x as u32);
        vstd::utf8::char_u32_cast(y, y as u32);
    }
}

pub proof fn lemma_text_order()
    ensures
        strict_total(|x: Seq<char>, y: Seq<char>| text_lt(x, y)),
        forall|x: Seq<char>| !#[trigger] text_lt(x, x),
        forall|x: Seq<char>, y: Seq<char>, z: Seq<char>|
            #[trigger] text_lt(x, y) && #[trigger] text_lt(y, z) ==> text_lt(x, z),
        forall|x: Seq<char>, y: Seq<char>|
            x != y ==> #[trigger] text_lt(x, y) || #[trigger] text_lt(y, x),
{
    lemma_char_order();
    lemma_lex_strict_total(|x: char, y: char| char_lt(x, y));
    let a = |x: Seq<char>, y: Seq<char>| text_lt(x, y);
    let b = |x: Seq<char>, y: Seq<char>| lex(x, y, |p: char, q: char| char_lt(p, q));
    assert(a == b) by {
        assert forall|x: Seq<char>, y: Seq<char>| #[trigger] a(x, y) == b(x, y) by {}
        assert(a =~= b);
    }
    assert forall|x: Seq<char>| !#[trigger] text_lt(x, x) by {
        assert(!a(x, x));
    }
    assert forall|x: Seq<char>, y: Seq<char>, z: Seq<char>|
        #[trigger] text_lt(x, y) && #[trigger] text_lt(y, z) implies text_lt(x, z) by {
        assert(a(x, y) && a(y, z));
    }
    assert forall|x: Seq<char>, y: Seq<char>|
        x != y implies #[trigger] text_lt(x, y) || #[trigger] text_lt(y, x) by {
        assert(a(x, y) || a(y, x));
    }
}

pub proof fn lemma_key_order()
    ensures
        strict_total(|x: Seq<Seq<char>>, y: Seq<Seq<char>>| key_lt(x, y)),
        forall|x: Seq<Seq<char>>| !#[trigger] key_lt(x, x),
        forall|x: Seq<Seq<char>>, y: Seq<Seq<char>>, z: Seq<Seq<char>>|
            #[trigger] key_lt(x, y) && #[trigger] key_lt(y, z) ==> key_lt(x, z),
        forall|x: Seq<Seq<char>>, y: Seq<Seq<char>>|
            x != y ==> #[trigger] key_lt(x, y) || #[trigger] key_lt(y, x),
{
    lemma_text_order();
    lemma_lex_strict_total(|x: Seq<char>, y: Seq<char>| text_lt(x, y));
    let a = |x: Seq<Seq<char>>, y: Seq<Seq<char>>| key_lt(x, y);
    let b = |x: Seq<Seq<char>>, y: Seq<Seq<char>>|
        lex(x, y, |p: Seq<char>, q: Seq<char>| text_lt(p, q));
    assert(a == b) by {
        assert forall|x: Seq<Seq<char>>, y: Seq<Seq<char>>| #[trigger] a(x, y) == b(x, y) by {}
        assert(a =~= b);
    }
    assert forall|x: Seq<Seq<char>>| !#[trigger] key_lt(x, x) by {
        assert(!a(x, x));
    }
    assert forall|x: Seq<Seq<char>>, y: Seq<Seq<char>>, z: Seq<Seq<char>>|
        #[trigger] key_lt(x, y) && #[trigger] key_lt(y, z) implies key_lt(x, z) by {
        assert(a(x, y) && a(y, z));
    }
    assert forall|x: Seq<Seq<char>>, y: Seq<Seq<char>>|
        x != y implies #[trigger] key_lt(x, y) || #[trigger] key_lt(y, x) by {
        assert(a(x, y) || a(y, x));
    }
}

/// Appends one character: std's `String::push`. Claimed: the text afterwards is the old
/// text followed by `c`.
#[verifier::external_body]
pub(crate) fn push_char(s: &mut String, c: char)
    ensures
        final(s)@ == old(s)@.push(c),
{
    s.push(c);
}

/// The characters of a text.
pub fn chars_of(s: &str) -> (v: Vec<char>)
    ensures
        v@ == s@,
{
    let n = s.unicode_len();
    let mut v: Vec<char> = Vec::new();
    let mut i: usize = 0;
    while i < n
        invariant
            n == s@.len(),
            i <= n,
            v@ == s@.subrange(0, i as int),
        decreases n - i,
    {
        let c = s.get_char(i);
        v.push(c);
        i += 1;
    }
    assert(v@ =~= s@);
    v
}

/// Appends a sequence of characters.
pub fn push_chars(s: &mut String, cs: &[char])
    ensures
        final(s)@ == old(s)@ + cs@,
{
    let mut i: usize = 0;
    while i < cs.len()
        invariant
            i <= cs@.len(),
            s@ == old(s)@ + cs@.subrange(0, i as int),
        decreases cs.len() - i,
    {
        push_char(s, cs[i]);
        i += 1;
        assert(cs@.subrange(0, i as int) =~= cs@.subrange(0, i - 1 as int).push(cs@[i - 1]));
    }
    assert(cs@.subrange(0, cs@.len() as int) =~= cs@);
}

/// A new string holding the given characters.
pub fn string_of(cs: &[char]) -> (r: String)
    ensures
        r@ == cs@,
{
    let mut r = String::new();
    push_chars(&mut r, cs);
    assert(Seq::<char>::empty() + cs@ =~= cs@);
    r
}

/// A copy of a text as an owned string.
pub fn owned(s: &str) -> (r: String)
    ensures
        r@ == s@,
{
    String::from_str(s)
}

/// Compares two texts in the order of `String`.
pub fn compare_text(a: &str, b: &str) -> (r: Order)
    ensures
        (r == Order::Less) == text_lt(a@, b@),
        (r == Order::Equal) == (a@ == b@),
        (r == Order::Greater) == text_lt(b@, a@),
{
    proof {
        lemma_text_order();
    }
    let la = a.unicode_len();
    let lb = b.unicode_len();
    let mut i: usize = 0;
    while i < la && i < lb
        invariant
            la == a@.len(),
            lb == b@.len(),
            i <= la,
            i <= lb,
            a@.subrange(0, i as int) == b@.subrange(0, i as int),
        decreases la - i,
    {
        let ca = a.get_char(i);
        let cb = b.get_char(i);
        if ca != cb {
            proof {
                lemma_lex_skip(a@, b@, i as int, |x: char, y: char| char_lt(x, y));
                lemma_lex_skip(b@, a@, i as int, |x: char, y: char| char_lt(x, y));
                vstd::utf8::char_u32_cast(ca, ca as u32);
                vstd::utf8::char_u32_cast(cb, cb as u32);
                if a@ == b@ {
                    assert(a@[i as int] == b@[i as int]);
                }
            }
            if (ca as u32) < (cb as u32) {
                return Order::Less;
            } else {
                return Order::Greater;
            }
        }
        i += 1;
        assert(a@.subrange(0, i as int) =~= a@.subrange(0, i - 1 as int).push(ca));
        assert(b@.subrange(0, i as int) =~= b@.subrange(0, i - 1 as int).push(cb));
    }
    proof {
        lemma_lex_skip(a@, b@, i as int, |x: char, y: char| char_lt(x, y));
        lemma_lex_skip(b@, a@, i as int, |x: char, y: char| char_lt(x, y));
        if la == lb {
            assert(a@ =~= a@.subrange(0, i as int));
            assert(b@ =~= b@.subrange(0, i as int));
        }
        if a@ == b@ {
            assert(la == lb);
        }
    }
    if la == lb {
        Order::Equal
    } else if la < lb {
        Order::Less
    } else {
        Order::Greater
    }
}

/// Compares two tuples of texts, component by component.
pub fn compare_key(a: &[String], b: &[String]) -> (r: Order)
    ensures
        (r == Order::Less) == key_lt(a@.map_values(|s: String| s@), b@.map_values(|s: String| s@)),
        (r == Order::Equal) == (a@.map_values(|s: String| s@) == b@.map_values(|s: String| s@)),
        (r == Order::Greater) == key_lt(
            b@.map_values(|s: String| s@),
            a@.map_values(|s: String| s@),
        ),
{
    let ghost av = a@.map_values(|s: String| s@);
    let ghost bv = b@.map_values(|s: String| s@);
    proof {
        lemma_key_order();
    }
    let la = a.len();
    let lb = b.len();
    let mut i: usize = 0;
    while i < la && i < lb
        invariant
            la == a@.len(),
            lb == b@.len(),
            av == a@.map_values(|s: String| s@),
            bv == b@.map_values(|s: String| s@),
            i <= la,
            i <= lb,
            av.subrange(0, i as int) == bv.subrange(0, i as int),
        decreases la - i,
    {
        let c = compare_text(a[i].as_str(), b[i].as_str());
        match c {
            Order::Equal => {},
            _ => {
                proof {
                    let l = |x: Seq<char>, y: Seq<char>| text_lt(x, y);
                    lemma_lex_skip(av, bv, i as int, l);
                    lemma_lex_skip(bv, av, i as int, l);
                    if av == bv {
                        assert(av[i as int] == bv[i as int]);
                    }
                    assert(av.skip(i as int)[0] == av[i as int]);
                    assert(bv.skip(i as int)[0] == bv[i as int]);
                }
                return c;
            },
        }
        i += 1;
        assert(av.subrange(0, i as int) =~= av.subrange(0, i - 1 as int).push(av[i - 1]));
        assert(bv.subrange(0, i as int) =~= bv.subrange(0, i - 1 as int).push(bv[i - 1]));
    }
    proof {
        let l = |x: Seq<char>, y: Seq<char>| text_lt(x, y);
        lemma_lex_skip(av, bv, i as int, l);
        lemma_lex_skip(bv, av, i as int, l);
        if la == lb {
            assert(av =~= av.subrange(0, i as int));
            assert(bv =~= bv.subrange(0, i as int));
        }
        if av == bv {
            assert(la == lb);
        }
    }
    if la == lb {
        Order::Equal
    } else if la < lb {
        Order::Less
    } else {
        Order::Greater
    }
}


/// The decimal digit for `d < 10`.
pub open spec fn digit(d: nat) -> char {
    seq!['0', '1', '2', '3', '4', '5', '6', '7', '8', '9'][d as int]
}

/// Decimal notation of a natural number, without leading zeros.
pub open spec fn decimal(n: nat) -> Seq<char>
    decreases n,
{
    if n < 10 {
        seq![digit(n)]
    } else {
        decimal(n / 10).push(digit(n % 10))
    }
}

/// Decimal notation padded with zeros to at least two digits (`{:02}`).
pub open spec fn pad2(n: nat) -> Seq<char> {
    if n < 10 {
        seq!['0'] + decimal(n)
    } else {
        decimal(n)
    }
}

pub fn digit_char(d: u64) -> (c: char)
    requires
        d < 10,
    ensures
        c == digit(d as nat),
{
    match d {
        0 => '0',
        1 => '1',
        2 => '2',
        3 => '3',
        4 => '4',
        5 => '5',
        6 => '6',
        7 => '7',
        8 => '8',
        _ => '9',
    }
}

/// Appends the decimal notation of `n`.
pub fn push_decimal(s: &mut String, n: u64)
    ensures
        final(s)@ == old(s)@ + decimal(n as nat),
    decreases n,
{
    if n >= 10 {
        push_decimal(s, n / 10);
    }
    push_char(s, digit_char(n % 10));
    assert(final(s)@ =~= old(s)@ + decimal(n as nat)) by {
        if n >= 10 {
            assert(decimal(n as nat) == decimal((n / 10) as nat).push(digit((n % 10) as nat)));
        }
    }
}

/// Appends `n` padded with zeros to two digits.
pub fn push_pad2(s: &mut String, n: u64)
    ensures
        final(s)@ == old(s)@ + pad2(n as nat),
{
    if n < 10 {
        push_char(s, '0');
    }
    push_decimal(s, n);
    assert(final(s)@ =~= old(s)@ + pad2(n as nat));
}

/// Unicode `White_Space` (the characters `char::is_whitespace` accepts).
pub open spec fn is_ws(c: char) -> bool {
    let u = c as u32;
    ||| 0x9 <= u <= 0xD
    ||| u == 0x20
    ||| u == 0x85
    ||| u == 0xA0
    ||| u == 0x1680
    ||| 0x2000 <= u <= 0x200A
    ||| u == 0x2028
    ||| u == 0x2029
    ||| u == 0x202F
    ||| u == 0x205F
    ||| u == 0x3000
}

pub fn is_whitespace(c: char) -> (r: bool)
    ensures
        r == is_ws(c),
{
    let u = c as u32;
    (0x9 <= u && u <= 0xD) || u == 0x20 || u == 0x85 || u == 0xA0 || u == 0x1680 || (0x2000 <= u
        && u <= 0x200A) || u == 0x2028 || u == 0x2029 || u == 0x202F || u == 0x205F || u == 0x3000
}

/// Text without its leading whitespace.
pub open spec fn trim_start(s: Seq<char>) -> Seq<char>
    decreases s.len(),
{
    if s.len() > 0 && is_ws(s[0]) {
        trim_start(s.drop_first())
    } else {
        s
    }
}

/// Text without its trailing whitespace.
pub open spec fn trim_end(s: Seq<char>) -> Seq<char>
    decreases s.len(),
{
    if s.len() > 0 && is_ws(s.last()) {
        trim_end(s.drop_last())
    } else {
        s
    }
}

/// Text without leading and trailing whitespace (`str::trim`).
pub open spec fn trim(s: Seq<char>) -> Seq<char> {
    trim_end(trim_start(s))
}

/// The characters of `s` without leading and trailing whitespace.
pub fn trim_chars(s: &[char]) -> (r: Vec<char>)
    ensures
        r@ == trim(s@),
{
    let n = s.len();
    let mut i: usize = 0;
    assert(s@.skip(0) =~= s@);
    while i < n && is_whitespace(s[i])
        invariant
            n == s@.len(),
            i <= n,
            trim_start(s@) == trim_start(s@.skip(i as int)),
        decreases n - i,
    {
        assert(s@.skip(i as int).drop_first() =~= s@.skip(i + 1 as int));
        i += 1;
    }
    assert(trim_start(s@) == s@.skip(i as int)) by {
        if i < n {
            assert(s@.skip(i as int)[0] == s@[i as int]);
        }
    }
    let mut j: usize = n;
    while j > i && is_whitespace(s[j - 1])
        invariant
            n == s@.len(),
            i <= j <= n,
            trim_end(s@.skip(i as int)) == trim_end(s@.subrange(i as int, j as int)),
        decreases j,
    {
        assert(s@.subrange(i as int, j as int).drop_last() =~= s@.subrange(i as int, j - 1 as int));
        j -= 1;
    }
    assert(s@.skip(i as int) =~= s@.subrange(i as int, n as int));
    let mut r: Vec<char> = Vec::new();
    let mut k: usize = i;
    while k < j
        invariant
            i <= k <= j <= n,
            n == s@.len(),
            r@ == s@.subrange(i as int, k as int),
        decreases j - k,
    {
        r.push(s[k]);
        k += 1;
        assert(r@ =~= s@.subrange(i as int, k as int));
    }
    assert(trim_end(s@.subrange(i as int, j as int)) == s@.subrange(i as int, j as int)) by {
        if j > i {
            assert(s@.subrange(i as int, j as int).last() == s@[j - 1]);
        }
    }
    r
}

/// Position of the last occurrence of `c` in `s`.
pub open spec fn rfind(s: Seq<char>, c: char) -> Option<int>
    decreases s.len(),
{
    if s.len() == 0 {
        None
    } else if s.last() == c {
        Some(s.len() - 1)
    } else {
        rfind(s.drop_last(), c)
    }
}

pub proof fn lemma_rfind(s: Seq<char>, c: char)
    ensures
        rfind(s, c) matches Some(p) ==> 0 <= p < s.len() && s[p] == c && forall|k: int|
            p < k < s.len() ==> s[k] != c,
        rfind(s, c) is None ==> forall|k: int| 0 <= k < s.len() ==> s[k] != c,
    decreases s.len(),
{
    if s.len() > 0 && s.last() != c {
        lemma_rfind(s.drop_last(), c);
        assert forall|k: int| 0 <= k < s.len() - 1 implies s.drop_last()[k] == s[k] by {}
    }
}

/// Finds the last occurrence of `c`.
pub fn rfind_char(s: &[char], c: char) -> (r: Option<usize>)
    ensures
        r matches Some(p) ==> rfind(s@, c) == Some(p as int),
        r is None ==> rfind(s@, c) is None,
{
    let mut j: usize = s.len();
    assert(s@.subrange(0, j as int) =~= s@);
    while j > 0
        invariant
            j <= s@.len(),
            rfind(s@, c) == rfind(s@.subrange(0, j as int), c),
        decreases j,
    {
        if s[j - 1] == c {
            return Some(j - 1);
        }
        assert(s@.subrange(0, j as int).drop_last() =~= s@.subrange(0, j - 1 as int));
        j -= 1;
    }
    None
}

/// A copy of `s[from..to]`.
pub fn slice_chars(s: &[char], from: usize, to: usize) -> (r: Vec<char>)
    requires
        from <= to <= s@.len(),
    ensures
        r@ == s@.subrange(from as int, to as int),
{
    let mut r: Vec<char> = Vec::new();
    let mut k: usize = from;
    while k < to
        invariant
            from <= k <= to <= s@.len(),
            r@ == s@.subrange(from as int, k as int),
        decreases to - k,
    {
        r.push(s[k]);
        k += 1;
        assert(r@ =~= s@.subrange(from as int, k as int));
    }
    r
}

/// `t` occurs in `s` as a contiguous run.
pub open spec fn contains_text(s: Seq<char>, t: Seq<char>) -> bool {
    exists|i: int| 0 <= i && i + t.len() <= s.len() && #[trigger] s.subrange(i, i + t.len()) == t
}

/// Whether `t` occurs in `s`.
pub fn contains_chars(s: &[char], t: &[char]) -> (r: bool)
    ensures
        r == contains_text(s@, t@),
{
    if t.len() > s.len() {
        return false;
    }
    if t.len() == 0 {
        assert(s@.subrange(0, 0 + t@.len() as int) =~= t@);
        return true;
    }
    let last = s.len() - t.len();
    let mut i: usize = 0;
    while i <= last
        invariant
            t@.len() <= s@.len(),
            t@.len() > 0,
            last == s.len() - t.len(),
            i <= last + 1,
            forall|k: int| 0 <= k < i ==> #[trigger] s@.subrange(k, k + t@.len()) != t@,
        decreases last + 1 - i,
    {
        let mut j: usize = 0;
        while j < t.len()
            invariant
                i + t.len() <= s.len(),
                j <= t@.len(),
                s@.subrange(i as int, i + j) =~= t@.subrange(0, j as int),
            ensures
                j <= t@.len(),
                s@.subrange(i as int, i + j) =~= t@.subrange(0, j as int),
                j < t@.len() ==> s@[i + j] != t@[j as int],
            decreases t.len() - j,
        {
            if s[i + j] != t[j] {
                break;
            }
            j += 1;
        }
        if j == t.len() {
            assert(t@.subrange(0, t@.len() as int) =~= t@);
            return true;
        }
        assert(s@.subrange(i as int, i + t@.len())[j as int] != t@[j as int]);
        i += 1;
    }
    false
}

} // verus!
