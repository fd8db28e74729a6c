use std::marker::PhantomData;
use vstd::arithmetic::div_mod::{lemma_basic_div, lemma_div_denominator, lemma_fundamental_div_mod};
use vstd::prelude::*;

verus! {

/// Number of hexadecimal digits in a handle's textual form.
pub const DIGITS: usize = 32;

/// Length of a handle's textual form: the digits and four dashes.
pub const TEXT_LEN: usize = 36;

/// `16` raised to `n`.
pub open spec fn pow16(n: nat) -> nat
    decreases n,
{
    if n == 0 {
        1
    } else {
        16 * pow16((n - 1) as nat)
    }
}

/// The `k`-th hexadecimal digit of `id`, most significant first, out of 32.
pub open spec fn nibble(id: nat, k: nat) -> nat {
    (id / pow16((31 - k) as nat)) % 16
}

/// The number whose hexadecimal digits, most significant first, are `ds`.
pub open spec fn horner(ds: Seq<nat>) -> nat
    decreases ds.len(),
{
    if ds.len() == 0 {
        0
    } else {
        horner(ds.drop_last()) * 16 + ds.last()
    }
}

/// Lower-case hexadecimal character for a digit below 16.
pub open spec fn hex_char(d: nat) -> char {
    if d < 10 {
        ((d + 48) as u8) as char
    } else {
        ((d + 87) as u8) as char
    }
}

/// The value of a hexadecimal character, of either case.
pub open spec fn hex_value(c: char) -> Option<nat> {
    let u = c as u32;
    if 48 <= u <= 57 {
        Some((u - 48) as nat)
    } else if 97 <= u <= 102 {
        Some((u - 87) as nat)
    } else if 65 <= u <= 70 {
        Some((u - 55) as nat)
    } else {
        None
    }
}

/// Whether a position of the textual form holds a dash (8-4-4-4-12 grouping).
pub open spec fn is_dash_pos(p: int) -> bool {
    p == 8 || p == 13 || p == 18 || p == 23
}

/// Position in the textual form of the `k`-th digit.
pub open spec fn text_pos(k: int) -> int {
    if k < 8 {
        k
    } else if k < 12 {
        k + 1
    } else if k < 16 {
        k + 2
    } else if k < 20 {
        k + 3
    } else {
        k + 4
    }
}

/// Index of the digit at a non-dash position `p` of the textual form.
pub open spec fn digit_index(p: int) -> int {
    if p < 8 {
        p
    } else if p < 13 {
        p - 1
    } else if p < 18 {
        p - 2
    } else if p < 23 {
        p - 3
    } else {
        p - 4
    }
}

/// Number of digit positions before position `p` of the textual form.
pub open spec fn digits_before(p: int) -> int {
    if p <= 8 {
        p
    } else if p <= 13 {
        p - 1
    } else if p <= 18 {
        p - 2
    } else if p <= 23 {
        p - 3
    } else {
        p - 4
    }
}

/// Canonical textual form of an id: 32 lower-case hexadecimal digits in groups
/// of 8-4-4-4-12, separated by dashes.
pub open spec fn handle_text(id: u128) -> Seq<char> {
    Seq::new(
        36,
        |p: int|
            if is_dash_pos(p) {
                '-'
            } else {
                hex_char(nibble(id as nat, digit_index(p) as nat))
            },
    )
}

/// Whether `s` is a well-formed textual id: dashes at the group boundaries,
/// hexadecimal digits (of either case) everywhere else.
pub open spec fn is_handle_text(s: Seq<char>) -> bool {
    &&& s.len() == 36
    &&& forall|p: int| 0 <= p < 36 && #[trigger] is_dash_pos(p) ==> s[p] == '-'
    &&& forall|k: int| 0 <= k < 32 ==> (#[trigger] hex_value(s[text_pos(k)])) is Some
}

/// The digits of a textual id, most significant first.
pub open spec fn text_digits(s: Seq<char>) -> Seq<nat> {
    Seq::new(32, |k: int| hex_value(s[text_pos(k)]).unwrap_or(0))
}

/// The id that a well-formed textual id denotes.
pub open spec fn text_value(s: Seq<char>) -> nat {
    horner(text_digits(s))
}

/// What parsing a textual id gives.
pub open spec fn parse_spec(s: Seq<char>) -> Option<u128> {
    if is_handle_text(s) {
        Some(text_value(s) as u128)
    } else {
        None
    }
}

/// Why a textual handle could not be read.
#[derive(Clone, Copy, Debug, PartialEq, Eq, Structural)]
pub enum HandleError {
    /// The text is not a well-formed 128-bit id.
    MalformedHandle,
}

/// Typed identifier of one component in the collection that issued it.
/// Equality and hashing go by the id alone.
pub struct ComponentHandle<T> {
    id: u128,
    kind: PhantomData<T>,
}

impl<T> View for ComponentHandle<T> {
    type V = u128;

    closed spec fn view(&self) -> u128 {
        self.id
    }
}

impl<T> Clone for ComponentHandle<T> {
    fn clone(&self) -> (r: Self)
        ensures
            r@ == self@,
    {
        ComponentHandle { id: self.id, kind: PhantomData }
    }
}

impl<T> Copy for ComponentHandle<T> {

}

impl<T> PartialEq for ComponentHandle<T> {
    fn eq(&self, other: &Self) -> (r: bool)
        ensures
            r == (self@ == other@),
    {
        self.id == other.id
    }
}

impl<T> vstd::std_specs::cmp::PartialEqSpecImpl for ComponentHandle<T> {
    open spec fn obeys_eq_spec() -> bool {
        true
    }

    open spec fn eq_spec(&self, other: &Self) -> bool {
        self@ == other@
    }
}

impl<T> Eq for ComponentHandle<T> {

}

/// Relies on std's `Hash` for `u128`, which feeds the integer to the hasher;
/// nothing is claimed of the hasher's state afterwards.
pub assume_specification<H: std::hash::Hasher>[ <u128 as std::hash::Hash>::hash::<H> ](
    data: &u128,
    state: &mut H,
);

impl<T> std::hash::Hash for ComponentHandle<T> {
    fn hash<H: std::hash::Hasher>(&self, state: &mut H) {
        self.id.hash(state);
    }
}

/// The 32 hexadecimal digits of an id, most significant first.
pub open spec fn nibbles(id: u128) -> Seq<nat> {
    Seq::new(32, |k: int| nibble(id as nat, k as nat))
}

proof fn lemma_pow16_facts()
    ensures
        pow16(31) == 0x1000_0000_0000_0000_0000_0000_0000_0000,
        pow16(32) == 0x1_0000_0000_0000_0000_0000_0000_0000_0000,
{
    reveal_with_fuel(pow16, 33);
}

proof fn lemma_pow16_monotone(a: nat, b: nat)
    requires
        a <= b,
    ensures
        1 <= pow16(a) <= pow16(b),
    decreases b,
{
    if b > 0 && a < b {
        lemma_pow16_monotone(a, (b - 1) as nat);
    } else if b > 0 {
        lemma_pow16_monotone((b - 1) as nat, (b - 1) as nat);
    }
}

proof fn lemma_hex_char_value(d: nat)
    requires
        d < 16,
    ensures
        hex_value(hex_char(d)) == Some(d),
{
}

/// Reading the first `m` digits of an id gives the id with the rest dropped.
proof fn lemma_horner_nibbles(id: u128, m: nat)
    requires
        m <= 32,
    ensures
        horner(nibbles(id).take(m as int)) == (id as nat) / pow16((32 - m) as nat),
    decreases m,
{
    if m == 0 {
        lemma_pow16_facts();
        assert(nibbles(id).take(0) =~= Seq::<nat>::empty());
        lemma_basic_div(id as int, pow16(32) as int);
    } else {
        let k = (m - 1) as nat;
        lemma_horner_nibbles(id, k);
        let ds = nibbles(id).take(m as int);
        assert(ds.drop_last() =~= nibbles(id).take(k as int));
        let low = pow16((31 - k) as nat);
        lemma_pow16_monotone(0, (31 - k) as nat);
        let q = (id as nat) / low;
        assert(pow16((32 - k) as nat) == 16 * low);
        lemma_div_denominator(id as int, low as int, 16);
        assert(low * 16 == 16 * low) by (nonlinear_arith);
        lemma_fundamental_div_mod(q as int, 16);
        assert(ds.last() == q % 16);
        assert(horner(ds.drop_last()) == q / 16);
        assert(horner(ds) == (q / 16) * 16 + q % 16);
        assert(pow16((32 - m) as nat) == low);
    }
}

/// Reading the canonical text of an id gives the id back.
pub proof fn lemma_text_round_trip(id: u128)
    ensures
        is_handle_text(handle_text(id)),
        parse_spec(handle_text(id)) == Some(id),
{
    let s = handle_text(id);
    assert forall|k: int| 0 <= k < 32 implies hex_value(#[trigger] s[text_pos(k)]) == Some(
        nibble(id as nat, k as nat),
    ) by {
        assert(digit_index(text_pos(k)) == k);
        assert(nibble(id as nat, k as nat) < 16);
        lemma_hex_char_value(nibble(id as nat, k as nat));
    }
    assert forall|k: int| 0 <= k < 32 implies (#[trigger] hex_value(s[text_pos(k)])) is Some by {
        assert(hex_value(s[text_pos(k)]) == Some(nibble(id as nat, k as nat)));
    }
    assert(text_digits(s) =~= nibbles(id));
    lemma_horner_nibbles(id, 32);
    assert(nibbles(id).take(32) =~= nibbles(id));
    assert(pow16(0) == 1);
    assert((id as nat) / 1 == id as nat);
    assert(text_value(s) == id as nat);
}

/// Relies on `String::push`, which appends one character.
#[verifier::external_body]
fn push_char(s: &mut String, c: char)
    ensures
        final(s)@ == old(s)@.push(c),
{
    s.push(c);
}

fn digit_char(d: u8) -> (c: char)
    requires
        d < 16,
    ensures
        c == hex_char(d as nat),
{
    if d < 10 {
        (d + 48) as char
    } else {
        (d + 87) as char
    }
}

fn digit_value(c: char) -> (r: Option<u8>)
    ensures
        r matches Some(v) ==> hex_value(c) == Some(v as nat),
        r is None ==> hex_value(c) is None,
{
    let u = c as u32;
    if 48 <= u && u <= 57 {
        Some((u - 48) as u8)
    } else if 97 <= u && u <= 102 {
        Some((u - 87) as u8)
    } else if 65 <= u && u <= 70 {
        Some((u - 55) as u8)
    } else {
        None
    }
}

fn digit_pos(k: usize) -> (p: usize)
    requires
        k < 32,
    ensures
        p as int == text_pos(k as int),
        p < 36,
{
    if k < 8 {
        k
    } else if k < 12 {
        k + 1
    } else if k < 16 {
        k + 2
    } else if k < 20 {
        k + 3
    } else {
        k + 4
    }
}

impl<T> ComponentHandle<T> {
    /// A handle wrapping the given id.
    pub(crate) fn new(id: u128) -> (r: Self)
        ensures
            r@ == id,
    {
        ComponentHandle { id, kind: PhantomData }
    }

    /// The id that the handle wraps.
    pub(crate) fn id(&self) -> (r: u128)
        ensures
            r == self@,
    {
        self.id
    }

    /// The canonical textual form of the handle's id.
    pub fn to_text(&self) -> (r: String)
        ensures
            r@ == handle_text(self@),
    {
        let mut out = String::new();
        let mut k: usize = 0;
        let mut div: u128 = 0x1000_0000_0000_0000_0000_0000_0000_0000;
        let mut p: usize = 0;
        proof {
            lemma_pow16_facts();
        }
        while p < TEXT_LEN
            invariant
                p <= 36,
                k as int == digits_before(p as int),
                k < 32 ==> div as nat == pow16((31 - k) as nat),
                k < 32 ==> div > 0,
                out@.len() == p,
                forall|j: int| 0 <= j < p ==> out@[j] == #[trigger] handle_text(self@)[j],
            decreases 36 - p,
        {
            if p == 8 || p == 13 || p == 18 || p == 23 {
                push_char(&mut out, '-');
            } else {
                assert(k < 32);
                let d = ((self.id / div) % 16) as u8;
                push_char(&mut out, digit_char(d));
                if k < 31 {
                    proof {
                        assert(pow16((31 - k) as nat) == 16 * pow16((30 - k) as nat));
                        lemma_pow16_monotone(0, (30 - k) as nat);
                    }
                    div = div / 16;
                }
                k = k + 1;
            }
            p = p + 1;
        }
        assert(out@ =~= handle_text(self@));
        out
    }

    /// Reads a handle from its textual form; the digits may be of either case.
    /// Whether a component has that id is not checked here.
    pub fn parse(text: &str) -> (r: Result<Self, HandleError>)
        ensures
            match parse_spec(text@) {
                Some(id) => r matches Ok(h) && h@ == id,
                None => r == Err::<Self, HandleError>(HandleError::MalformedHandle),
            },
    {
        let n = text.unicode_len();
        if n != TEXT_LEN {
            return Err(HandleError::MalformedHandle);
        }
        if text.get_char(8) != '-' || text.get_char(13) != '-' || text.get_char(18) != '-'
            || text.get_char(23) != '-' {
            proof {
                assert(is_dash_pos(8) && is_dash_pos(13) && is_dash_pos(18) && is_dash_pos(23));
            }
            return Err(HandleError::MalformedHandle);
        }
        let ghost s = text@;
        let mut acc: u128 = 0;
        let mut k: usize = 0;
        proof {
            lemma_pow16_facts();
        }
        while k < DIGITS
            invariant
                s == text@,
                s.len() == 36,
                k <= 32,
                forall|p: int| 0 <= p < 36 && #[trigger] is_dash_pos(p) ==> s[p] == '-',
                forall|j: int| 0 <= j < k ==> (#[trigger] hex_value(s[text_pos(j)])) is Some,
                acc as nat == horner(text_digits(s).take(k as int)),
                (acc as nat) < pow16(k as nat),
                pow16(32) == 0x1_0000_0000_0000_0000_0000_0000_0000_0000,
            decreases 32 - k,
        {
            let c = text.get_char(digit_pos(k));
            match digit_value(c) {
                None => {
                    return Err(HandleError::MalformedHandle);
                },
                Some(v) => {
                    proof {
                        let ds = text_digits(s).take(k as int + 1);
                        assert(ds.drop_last() =~= text_digits(s).take(k as int));
                        assert(ds.last() == v as nat);
                        lemma_pow16_monotone((k + 1) as nat, 32);
                        let a = acc as nat;
                        let pk = pow16(k as nat);
                        assert(a * 16 + v < pk * 16) by (nonlinear_arith)
                            requires
                                a < pk,
                                v < 16,
                        ;
                        assert(pow16((k + 1) as nat) == 16 * pk);
                    }
                    acc = acc * 16 + v as u128;
                },
            }
            k = k + 1;
        }
        assert(text_digits(s).take(32) =~= text_digits(s));
        Ok(ComponentHandle::new(acc))
    }
}

} // verus!
