use vstd::prelude::*;

verus! {

/// How far below the requested entry a tree operation reaches.
#[derive(PartialEq, Eq, Structural, Clone, Copy, Debug)]
pub enum Depth {
    Infinite,
    Levels(u32),
}

/// True when `c` is a decimal digit.
pub open spec fn is_digit(c: char) -> bool {
    '0' <= c && c <= '9'
}

/// Every character of `s` is a decimal digit.
pub open spec fn all_digits(s: Seq<char>) -> bool {
    forall|i: int| 0 <= i < s.len() ==> is_digit(#[trigger] s[i])
}

/// The number that the decimal digits `s` write.
pub open spec fn decimal_value(s: Seq<char>) -> int
    decreases s.len(),
{
    if s.len() == 0 {
        0
    } else {
        10 * decimal_value(s.drop_last()) + (s.last() as int - '0' as int)
    }
}

/// The digits of an unsigned number's text: an optional leading '+' is dropped.
pub open spec fn unsigned_digits(s: Seq<char>) -> Seq<char> {
    if s.len() > 0 && s[0] == '+' {
        s.drop_first()
    } else {
        s
    }
}

/// `s` is the text of a number that fits in a `u32`.
pub open spec fn is_u32_text(s: Seq<char>) -> bool {
    let d = unsigned_digits(s);
    d.len() > 0 && all_digits(d) && decimal_value(d) <= u32::MAX
}

/// The text of the infinite depth.
pub open spec fn infinity_text() -> Seq<char> {
    seq!['i', 'n', 'f', 'i', 'n', 'i', 't', 'y']
}

/// The depth that a Depth header value gives: absent, "infinity" and any
/// value that is not a number all mean the whole tree.
pub open spec fn depth_of(h: Option<Seq<char>>) -> Depth {
    match h {
        None => Depth::Infinite,
        Some(s) => if s != infinity_text() && is_u32_text(s) {
            Depth::Levels(decimal_value(unsigned_digits(s)) as u32)
        } else {
            Depth::Infinite
        },
    }
}

proof fn lemma_value_grows(s: Seq<char>, i: int, j: int)
    requires
        all_digits(s),
        0 <= i <= j <= s.len(),
    ensures
        decimal_value(s.subrange(0, i)) <= decimal_value(s.subrange(0, j)),
    decreases j - i,
{
    if i < j {
        lemma_value_grows(s, i, j - 1);
        assert(s.subrange(0, j).drop_last() =~= s.subrange(0, j - 1));
        assert(is_digit(s[j - 1]));
        lemma_value_nonneg(s.subrange(0, j - 1));
    }
}

proof fn lemma_value_nonneg(s: Seq<char>)
    requires
        all_digits(s),
    ensures
        decimal_value(s) >= 0,
    decreases s.len(),
{
    if s.len() > 0 {
        assert(is_digit(s[s.len() - 1]));
        lemma_value_nonneg(s.drop_last());
    }
}

/// Whether two texts are the same.
pub fn same_text(a: &str, b: &str) -> (r: bool)
    ensures
        r == (a@ == b@),
{
    let n = a.unicode_len();
    if n != b.unicode_len() {
        return false;
    }
    let mut i: usize = 0;
    while i < n
        invariant
            n == a@.len(),
            n == b@.len(),
            i <= n,
            forall|k: int| 0 <= k < i ==> a@[k] == b@[k],
        decreases n - i,
    {
        if a.get_char(i) != b.get_char(i) {
            return false;
        }
        i = i + 1;
    }
    assert(a@ =~= b@);
    true
}

/// Reads an unsigned decimal number that fits in a `u32`, with an optional
/// leading '+'.
pub fn parse_u32(s: &str) -> (r: Option<u32>)
    ensures
        r is Some <==> is_u32_text(s@),
        r matches Some(v) ==> v == decimal_value(unsigned_digits(s@)),
{
    let n = s.unicode_len();
    let mut i: usize = 0;
    if n > 0 && s.get_char(0) == '+' {
        i = 1;
    }
    let start = i;
    let ghost d = unsigned_digits(s@);
    assert(d =~= s@.subrange(start as int, n as int));
    if start == n {
        return None;
    }
    let mut acc: u64 = 0;
    while i < n
        invariant
            n == s@.len(),
            start <= i <= n,
            d == unsigned_digits(s@),
            d =~= s@.subrange(start as int, n as int),
            all_digits(d.subrange(0, i - start)),
            acc == decimal_value(d.subrange(0, i - start)),
            acc <= u32::MAX,
        decreases n - i,
    {
        let c = s.get_char(i);
        assert(d.subrange(0, i + 1 - start).drop_last() =~= d.subrange(0, i - start));
        if c < '0' || c > '9' {
            assert(d[i - start] == c);
            assert(!is_digit(d[i - start]));
            assert(!all_digits(d));
            return None;
        }
        let v = (c as u64) - ('0' as u64);
        let next = acc * 10 + v;
        proof {
            let pre = d.subrange(0, i + 1 - start);
            assert(pre.last() == c);
            assert forall|k: int| 0 <= k < pre.len() implies is_digit(#[trigger] pre[k]) by {
                if k < pre.len() - 1 {
                    assert(pre[k] == d.subrange(0, i - start)[k]);
                }
            }
            assert(decimal_value(pre) == 10 * acc + v);
        }
        if next > 4294967295 {
            proof {
                if all_digits(d) {
                    lemma_value_grows(d, i + 1 - start, d.len() as int);
                    assert(d.subrange(0, d.len() as int) =~= d);
                }
            }
            return None;
        }
        acc = next;
        i = i + 1;
    }
    assert(d.subrange(0, n - start) =~= d);
    Some(acc as u32)
}

/// The depth that a Depth header value gives.
pub fn depth_from_header(h: Option<&str>) -> (r: Depth)
    ensures
        r == depth_of(
            match h {
                None => None,
                Some(s) => Some(s@),
            },
        ),
{
    match h {
        None => Depth::Infinite,
        Some(s) => {
            proof {
                reveal_strlit("infinity");
            }
            assert("infinity"@ =~= infinity_text());
            if same_text(s, "infinity") {
                assert(s@ == infinity_text());
                Depth::Infinite
            } else {
                assert(s@ != infinity_text());
                match parse_u32(s) {
                    Some(v) => Depth::Levels(v),
                    None => Depth::Infinite,
                }
            }
        },
    }
}

} // verus!
