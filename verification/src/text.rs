//! Text: building, ordering and comparing strings.

use vstd::prelude::*;
use vstd::utf8;

verus! {

/// Calls `String::from_utf8`.
///
/// Claimed: a string comes out exactly when the bytes are valid UTF-8, and it is the text
/// they encode.
#[verifier::external_body]
pub(crate) fn from_utf8(bytes: Vec<u8>) -> (s: Option<String>)
    ensures
        match s {
            Some(s) => utf8::valid_utf8(bytes@) && s@ == utf8::decode_utf8(bytes@),
            None => !utf8::valid_utf8(bytes@),
        },
{
    String::from_utf8(bytes).ok()
}

/// `String::push` appends one character.
pub assume_specification[ String::push ](s: &mut String, c: char)
    ensures
        final(s)@ == old(s)@.push(c),
;

/// The digit for `d`, in lower case past nine.
pub open spec fn digit(d: nat) -> char {
    if d < 10 {
        (48 + d) as char
    } else {
        (87 + d) as char
    }
}

/// `n` in the given base, without leading zeros.
pub open spec fn digits(n: nat, base: nat) -> Seq<char>
    decreases n,
{
    if base < 2 {
        Seq::empty()
    } else if n < base {
        seq![digit(n)]
    } else {
        proof {
            vstd::arithmetic::div_mod::lemma_div_decreases(n as int, base as int);
        }
        digits(n / base, base).push(digit(n % base))
    }
}

/// Append a number.
pub fn push_number(out: &mut String, n: u64, base: u64)
    requires
        2 <= base <= 16,
    ensures
        final(out)@ == old(out)@ + digits(n as nat, base as nat),
    decreases n,
{
    proof {
        assert(n % base < base) by (nonlinear_arith)
            requires
                base >= 2,
        ;
        if n >= base {
            vstd::arithmetic::div_mod::lemma_div_decreases(n as int, base as int);
        } else {
            vstd::arithmetic::div_mod::lemma_small_mod(n as nat, base as nat);
        }
    }
    if n >= base {
        push_number(out, n / base, base);
    }
    let d = (n % base) as u8;
    let c = if d < 10 {
        (48 + d) as char
    } else {
        (87 + d) as char
    };
    out.push(c);
    proof {
        assert(out@ =~= old(out)@ + digits(n as nat, base as nat));
    }
}

/// One character in ASCII lower case; others are left alone.
pub open spec fn lower(c: char) -> char {
    if 'A' <= c && c <= 'Z' {
        (c as u8 + 32) as char
    } else {
        c
    }
}

/// Text in ASCII lower case.
pub open spec fn lowercase(s: Seq<char>) -> Seq<char> {
    s.map_values(|c: char| lower(c))
}

/// The characters of a string.
pub fn characters(s: &str) -> (out: Vec<char>)
    ensures
        out@ == s@,
{
    let mut out: Vec<char> = Vec::new();
    for c in it: s.chars()
        invariant
            it.seq() == s@,
            out@ == s@.take(it.index()),
    {
        out.push(c);
        proof {
            assert(out@ =~= s@.take(it.index() + 1));
        }
    }
    proof {
        assert(out@ =~= s@);
    }
    out
}

/// `a` sorts before `b`: they agree up to where `a` ends, or up to where it has the smaller byte.
pub open spec fn before(a: Seq<u8>, b: Seq<u8>) -> bool {
    exists|n: int| #[trigger] parts_before(a, b, n)
}

/// `a` and `b` agree on their first `n` bytes, and there `a` sorts before `b`.
pub open spec fn parts_before(a: Seq<u8>, b: Seq<u8>, n: int) -> bool {
    &&& 0 <= n <= a.len()
    &&& n < b.len()
    &&& forall|i: int| 0 <= i < n ==> a[i] == b[i]
    &&& n == a.len() || a[n] < b[n]
}

/// Text order: bytewise on UTF-8.
pub open spec fn text_before(a: Seq<char>, b: Seq<char>) -> bool {
    before(utf8::encode_utf8(a), utf8::encode_utf8(b))
}

pub proof fn lemma_before_transitive(a: Seq<u8>, b: Seq<u8>, c: Seq<u8>)
    requires
        before(a, b),
        before(b, c),
    ensures
        before(a, c),
{
    let n = choose|n: int| parts_before(a, b, n);
    let m = choose|m: int| parts_before(b, c, m);
    assert(parts_before(a, b, n) && parts_before(b, c, m));
    if n <= m {
        assert(parts_before(a, c, n));
    } else {
        assert(parts_before(a, c, m));
    }
}

pub proof fn lemma_before_irreflexive(a: Seq<u8>)
    ensures
        !before(a, a),
{
    if before(a, a) {
        let n = choose|n: int| parts_before(a, a, n);
        assert(parts_before(a, a, n));
    }
}

/// How two strings compare.
pub enum Order {
    Before,
    Same,
    After,
}

/// Compare two strings bytewise.
pub fn compare(a: &str, b: &str) -> (order: Order)
    ensures
        match order {
            Order::Before => text_before(a@, b@),
            Order::Same => a@ == b@,
            Order::After => text_before(b@, a@),
        },
{
    let x = a.as_bytes();
    let y = b.as_bytes();
    let mut i: usize = 0;
    while i < x.len() && i < y.len() && x[i] == y[i]
        invariant
            i <= x@.len(),
            i <= y@.len(),
            forall|k: int| 0 <= k < i ==> x@[k] == y@[k],
        decreases x@.len() - i,
    {
        i = i + 1;
    }
    if i == x.len() && i == y.len() {
        proof {
            assert(x@ =~= y@);
            utf8::encode_utf8_decode_utf8(a@);
            utf8::encode_utf8_decode_utf8(b@);
        }
        Order::Same
    } else if i == x.len() || (i < y.len() && x[i] < y[i]) {
        proof {
            assert(parts_before(x@, y@, i as int));
        }
        Order::Before
    } else {
        proof {
            assert(parts_before(y@, x@, i as int));
        }
        Order::After
    }
}

/// What a digit counts for.
pub open spec fn worth(c: char) -> int {
    if '0' <= c && c <= '9' {
        c as int - '0' as int
    } else {
        10 + (c as int - 'a' as int)
    }
}

/// The number that digits spell, the first one counting most.
pub open spec fn spelled(s: Seq<char>, base: int) -> int
    decreases s.len(),
{
    if s.len() == 0 {
        0
    } else {
        spelled(s.drop_last(), base) * base + worth(s.last())
    }
}

/// Law: a number is read back from its digits. They are digits of its base, there is at least one,
/// and only zero starts with a zero.
pub proof fn law_digits_spell_the_number(n: nat, base: nat)
    requires
        2 <= base <= 16,
    ensures
        spelled(digits(n, base), base as int) == n,
        digits(n, base).len() > 0,
        digits(n, base)[0] == '0' <==> n == 0,
        forall|i: int|
            0 <= i < digits(n, base).len() ==> {
                let c = #[trigger] digits(n, base)[i];
                ('0' <= c <= '9' || 'a' <= c <= 'f') && worth(c) < base
            },
    decreases n,
{
    if n < base {
        let s = digits(n, base);
        assert(s =~= seq![digit(n)]);
        assert(s.drop_last() =~= Seq::<char>::empty());
        assert(spelled(s.drop_last(), base as int) == 0);
        assert(0 * (base as int) == 0) by (nonlinear_arith);
    } else {
        vstd::arithmetic::div_mod::lemma_div_decreases(n as int, base as int);
        vstd::arithmetic::div_mod::lemma_fundamental_div_mod(n as int, base as int);
        vstd::arithmetic::div_mod::lemma_mod_bound(n as int, base as int);
        vstd::arithmetic::div_mod::lemma_div_non_zero(n as int, base as int);
        law_digits_spell_the_number(n / base, base);
        let front = digits(n / base, base);
        let s = digits(n, base);
        assert(s =~= front.push(digit(n % base)));
        assert(s.drop_last() =~= front);
        assert((n / base) * base == base * (n / base)) by (nonlinear_arith);
        assert(s[0] == front[0]);
        assert forall|i: int| 0 <= i < s.len() implies {
            let c = #[trigger] s[i];
            ('0' <= c <= '9' || 'a' <= c <= 'f') && worth(c) < base
        } by {
            if i < front.len() {
                assert(s[i] == front[i]);
            }
        }
    }
}

/// Law: lower case moves the letters from A to Z to those from a to z, each to its own, and leaves
/// every other character alone, in its place.
pub proof fn law_lower_case_is_for_letters(s: Seq<char>, i: int)
    requires
        0 <= i < s.len(),
    ensures
        lowercase(s).len() == s.len(),
        'A' <= s[i] <= 'Z' ==> lowercase(s)[i] as int - 'a' as int == s[i] as int - 'A' as int,
        !('A' <= s[i] <= 'Z') ==> lowercase(s)[i] == s[i],
{
}

/// Law: text is ordered like words in a dictionary, by its bytes. Of two texts that begin alike, the
/// one that goes on with the smaller byte comes first, and one that ends there comes before both.
pub proof fn law_text_is_ordered_like_a_dictionary(
    a: Seq<char>,
    b: Seq<char>,
    start: Seq<u8>,
    x: u8,
    y: u8,
    rest: Seq<u8>,
    other: Seq<u8>,
)
    requires
        utf8::encode_utf8(b) == start + seq![y] + other,
        x < y,
    ensures
        utf8::encode_utf8(a) == start + seq![x] + rest ==> text_before(a, b) && !text_before(b, a),
        utf8::encode_utf8(a) == start ==> text_before(a, b) && !text_before(b, a),
{
    let p = utf8::encode_utf8(a);
    let q = utf8::encode_utf8(b);
    let n = start.len() as int;
    if p == start + seq![x] + rest || p == start {
        assert(forall|i: int| 0 <= i < n ==> p[i] == start[i] && q[i] == start[i]);
        assert(q[n] == y);
        assert(parts_before(p, q, n));
        if before(q, p) {
            lemma_before_transitive(p, q, p);
            lemma_before_irreflexive(p);
        }
    }
}

} // verus!
