//! Text as the rest of the library reads and writes it: byte order of names,
//! slices of a source text, and the pieces from which messages are built.

use vstd::prelude::*;
use vstd::string::*;
use vstd::utf8::*;

verus! {

// -----------------------------------------------------------------------------
// Bytes and characters
// -----------------------------------------------------------------------------

/// The text that a run of ASCII bytes spells.
pub open spec fn ascii_text(bytes: Seq<u8>) -> Seq<char> {
    Seq::new(bytes.len(), |i: int| bytes[i] as char)
}

pub open spec fn all_ascii(bytes: Seq<u8>) -> bool {
    forall|i: int| 0 <= i < bytes.len() ==> #[trigger] bytes[i] < 128
}

/// Characters whose encoding is pure ASCII are exactly the encoded bytes.
pub proof fn lemma_ascii_text(chars: Seq<char>)
    requires
        all_ascii(encode_utf8(chars)),
    ensures
        chars == ascii_text(encode_utf8(chars)),
{
    let bytes = encode_utf8(chars);
    let text = ascii_text(bytes);
    assert(is_ascii_chars(text));
    is_ascii_chars_encode_utf8(text);
    assert(encode_utf8(text) =~= bytes) by {
        assert forall|i: int| 0 <= i < bytes.len() implies encode_utf8(text)[i] == bytes[i] by {
            assert(text[i] as u8 == encode_utf8(text)[i]);
        }
    }
    encode_utf8_decode_utf8(text);
    encode_utf8_decode_utf8(chars);
}

/// Two texts with the same encoding are the same text.
pub proof fn lemma_encoding_injective(a: Seq<char>, b: Seq<char>)
    requires
        encode_utf8(a) == encode_utf8(b),
    ensures
        a == b,
{
    encode_utf8_decode_utf8(a);
    encode_utf8_decode_utf8(b);
}

/// A place where `bytes` may be cut: before an ASCII byte, or at either end.
pub open spec fn is_cut(bytes: Seq<u8>, i: int) -> bool {
    ||| i == 0
    ||| i == bytes.len()
    ||| 0 < i < bytes.len() && bytes[i] < 128
    ||| 0 < i < bytes.len() && bytes[i - 1] < 128
}

/// In an encoded text every cut falls between two characters.
pub proof fn lemma_cut_is_boundary(bytes: Seq<u8>, i: int)
    requires
        valid_utf8(bytes),
        is_cut(bytes, i),
    ensures
        is_char_boundary(bytes, i),
    decreases bytes.len(),
{
    is_char_boundary_start_end_of_seq(bytes);
    if 0 < i < bytes.len() {
        if bytes[i] < 128 {
            is_char_boundary_iff_not_is_continuation_byte(bytes, i);
        } else {
            lemma_boundary_after_ascii(bytes, i);
        }
    }
}

proof fn lemma_boundary_after_ascii(bytes: Seq<u8>, i: int)
    requires
        valid_utf8(bytes),
        0 < i < bytes.len(),
        bytes[i - 1] < 128,
    ensures
        is_char_boundary(bytes, i),
    decreases bytes.len(),
{
    let n = length_of_first_scalar(bytes);
    let rest = pop_first_scalar(bytes);
    reveal_with_fuel(is_char_boundary, 2);
    if i < n {
        assert(false);
    } else if i > n {
        lemma_boundary_after_ascii(rest, i - n);
    }
}

/// The part of `s` that stands between the byte offsets `from` and `to`.
pub fn slice_text(s: &str, from: usize, to: usize) -> (r: &str)
    requires
        from <= to <= s.spec_bytes().len(),
        is_cut(s.spec_bytes(), from as int),
        is_cut(s.spec_bytes(), to as int),
    ensures
        r.spec_bytes() == s.spec_bytes().subrange(from as int, to as int),
        r@ == decode_utf8(s.spec_bytes().subrange(from as int, to as int)),
{
    let ghost bytes = s.spec_bytes();
    proof {
        encode_utf8_valid_utf8(s@);
        lemma_cut_is_boundary(bytes, from as int);
        lemma_cut_is_boundary(bytes, to as int);
    }
    let head = s.split_at(to).0;
    proof {
        assert(head.spec_bytes() =~= bytes.subrange(0, to as int));
        encode_utf8_valid_utf8(head@);
        let h = head.spec_bytes();
        assert(is_cut(h, from as int));
        lemma_cut_is_boundary(h, from as int);
    }
    let r = head.split_at(from).1;
    proof {
        assert(r.spec_bytes() =~= bytes.subrange(from as int, to as int));
        encode_utf8_decode_utf8(r@);
    }
    r
}

// -----------------------------------------------------------------------------
// The order of names
// -----------------------------------------------------------------------------

/// `a` and `b` agree on their first `k` bytes and `a` stops or is smaller there.
pub open spec fn splits_at(a: Seq<u8>, b: Seq<u8>, k: int) -> bool {
    &&& 0 <= k <= a.len()
    &&& k < b.len()
    &&& forall|i: int| 0 <= i < k ==> #[trigger] a[i] == b[i]
    &&& k < a.len() ==> a[k] < b[k]
}

/// Lexicographic order of byte sequences.
pub open spec fn bytes_before(a: Seq<u8>, b: Seq<u8>) -> bool {
    exists|k: int| splits_at(a, b, k)
}

/// The order in which names are listed: that of their encodings.
pub open spec fn name_before(a: Seq<char>, b: Seq<char>) -> bool {
    bytes_before(encode_utf8(a), encode_utf8(b))
}

pub proof fn lemma_name_before_irreflexive(a: Seq<char>)
    ensures
        !name_before(a, a),
{
}

proof fn lemma_bytes_ordered(x: Seq<u8>, y: Seq<u8>, k: int)
    requires
        0 <= k <= x.len(),
        k <= y.len(),
        forall|t: int| 0 <= t < k ==> #[trigger] x[t] == y[t],
    ensures
        x == y || bytes_before(x, y) || bytes_before(y, x),
    decreases x.len() - k,
{
    if k < x.len() && k < y.len() && x[k] == y[k] {
        lemma_bytes_ordered(x, y, k + 1);
    } else if k == x.len() && k == y.len() {
        assert(x =~= y);
    } else {
        assert(splits_at(x, y, k) || splits_at(y, x, k));
    }
}

/// Of two different names, one comes before the other.
pub proof fn lemma_name_before_total(a: Seq<char>, b: Seq<char>)
    ensures
        a == b || name_before(a, b) || name_before(b, a),
{
    lemma_bytes_ordered(encode_utf8(a), encode_utf8(b), 0);
    if encode_utf8(a) == encode_utf8(b) {
        lemma_encoding_injective(a, b);
    }
}

pub proof fn lemma_name_before_transitive(a: Seq<char>, b: Seq<char>, c: Seq<char>)
    requires
        name_before(a, b),
        name_before(b, c),
    ensures
        name_before(a, c),
{
    let (x, y, z) = (encode_utf8(a), encode_utf8(b), encode_utf8(c));
    let i = choose|k: int| splits_at(x, y, k);
    let j = choose|k: int| splits_at(y, z, k);
    let m = if i < j { i } else { j };
    assert forall|t: int| 0 <= t < m implies #[trigger] x[t] == z[t] by {
        assert(x[t] == y[t]);
        assert(y[t] == z[t]);
    }
    if i < j {
        assert(y[i] == z[i]);
    } else if j < i {
        assert(x[j] == y[j]);
    }
    assert(splits_at(x, z, m));
}

/// How two names stand to each other in the order of names.
#[derive(Debug, Clone, Copy, PartialEq, Eq, Structural)]
pub enum NameOrder {
    Before,
    Same,
    After,
}

/// Compare two names byte by byte.
pub fn name_order(a: &str, b: &str) -> (r: NameOrder)
    ensures
        r == NameOrder::Before <==> name_before(a@, b@),
        r == NameOrder::Same <==> a@ == b@,
        r == NameOrder::After <==> name_before(b@, a@),
{
    let x = a.as_bytes();
    let y = b.as_bytes();
    let mut i: usize = 0;
    proof {
        if a@ == b@ {
            lemma_name_before_irreflexive(a@);
        }
        if name_before(a@, b@) && name_before(b@, a@) {
            lemma_name_before_transitive(a@, b@, a@);
            lemma_name_before_irreflexive(a@);
        }
    }
    while i < x.len() && i < y.len() && x[i] == y[i]
        invariant
            i <= x@.len(),
            i <= y@.len(),
            forall|k: int| 0 <= k < i ==> #[trigger] x@[k] == y@[k],
        decreases x@.len() - i,
    {
        i += 1;
    }
    if i < x.len() && i < y.len() {
        if x[i] < y[i] {
            assert(splits_at(x@, y@, i as int));
            NameOrder::Before
        } else {
            assert forall|k: int| 0 <= k < i implies #[trigger] y@[k] == x@[k] by {
                assert(x@[k] == y@[k]);
            }
            assert(splits_at(y@, x@, i as int));
            NameOrder::After
        }
    } else if i < y.len() {
        assert(splits_at(x@, y@, i as int));
        NameOrder::Before
    } else if i < x.len() {
        assert forall|k: int| 0 <= k < i implies #[trigger] y@[k] == x@[k] by {
            assert(x@[k] == y@[k]);
        }
        assert(splits_at(y@, x@, i as int));
        NameOrder::After
    } else {
        proof {
            assert(x@ =~= y@);
            lemma_encoding_injective(a@, b@);
        }
        NameOrder::Same
    }
}

/// Whether two texts are the same.
pub fn same_text(a: &str, b: &str) -> (r: bool)
    ensures
        r == (a@ == b@),
{
    match name_order(a, b) {
        NameOrder::Same => true,
        _ => false,
    }
}

// -----------------------------------------------------------------------------
// Building text
// -----------------------------------------------------------------------------

/// The character of a decimal digit.
pub open spec fn digit_char(d: nat) -> char {
    (48 + d) as char
}

/// The decimal numeral of `n`, without leading zeros.
pub open spec fn decimal(n: nat) -> Seq<char>
    decreases n,
{
    if n < 10 {
        seq![digit_char(n)]
    } else {
        decimal(n / 10).push(digit_char(n % 10))
    }
}

fn digit_text(d: u128) -> (r: &'static str)
    requires
        d < 10,
    ensures
        r@ == seq![digit_char(d as nat)],
{
    proof {
        reveal_strlit("0");
        reveal_strlit("1");
        reveal_strlit("2");
        reveal_strlit("3");
        reveal_strlit("4");
        reveal_strlit("5");
        reveal_strlit("6");
        reveal_strlit("7");
        reveal_strlit("8");
        reveal_strlit("9");
    }
    match d {
        0 => "0",
        1 => "1",
        2 => "2",
        3 => "3",
        4 => "4",
        5 => "5",
        6 => "6",
        7 => "7",
        8 => "8",
        _ => "9",
    }
}

/// Write `n` in decimal. The argument is wide enough for one more than any
/// offset.
pub fn decimal_text(n: u128) -> (r: String)
    ensures
        r@ == decimal(n as nat),
    decreases n,
{
    if n < 10 {
        digit_text(n).to_owned()
    } else {
        let mut r = decimal_text(n / 10);
        r.append(digit_text(n % 10));
        assert(r@ =~= decimal(n as nat));
        r
    }
}

/// `n` copies of the character `c`.
pub open spec fn repeated(c: char, n: nat) -> Seq<char> {
    Seq::new(n, |i: int| c)
}

/// `n` spaces.
pub fn spaces(n: usize) -> (r: String)
    ensures
        r@ == repeated(' ', n as nat),
{
    let mut r = String::new();
    let mut i: usize = 0;
    while i < n
        invariant
            i <= n,
            r@ == repeated(' ', i as nat),
        decreases n - i,
    {
        proof {
            reveal_strlit(" ");
        }
        r.append(" ");
        i += 1;
        assert(r@ =~= repeated(' ', i as nat));
    }
    r
}

/// `n` carets.
pub fn carets(n: usize) -> (r: String)
    ensures
        r@ == repeated('^', n as nat),
{
    let mut r = String::new();
    let mut i: usize = 0;
    while i < n
        invariant
            i <= n,
            r@ == repeated('^', i as nat),
        decreases n - i,
    {
        proof {
            reveal_strlit("^");
        }
        r.append("^");
        i += 1;
        assert(r@ =~= repeated('^', i as nat));
    }
    r
}

/// The concatenation of three texts.
pub fn join3(a: &str, b: &str, c: &str) -> (r: String)
    ensures
        r@ == a@ + b@ + c@,
{
    let mut r = a.to_owned();
    r.append(b);
    r.append(c);
    r
}

} // verus!
