//! Rust tokens as text: numbers with their type suffix, and lists of tokens.
//!
//! Generated source is a sequence of tokens with one space between them, none inside
//! round and square brackets, and none within operators of several characters.
use crate::number::{F32, F64};
use crate::text;
use byteorder::ByteOrder;
use vstd::prelude::*;

verus! {

/// What `proc_macro2::Literal::f32_suffixed` writes for the finite number with these bits.
pub uninterp spec fn single_literal(bits: u32) -> Seq<char>;

/// What `proc_macro2::Literal::f64_suffixed` writes for the finite number with these bits.
pub uninterp spec fn double_literal(bits: u64) -> Seq<char>;

/// The text of `proc_macro2::Literal::f32_suffixed`, which accepts finite numbers only. The
/// text is a function of the number; which digits it has is left to that crate.
#[verifier::external_body]
fn write_single(bits: u32) -> (r: String)
    requires
        (F32 { bits }).finite(),
    ensures
        r@ == single_literal(bits),
{
    let value = byteorder::LittleEndian::read_f32(&bits.to_le_bytes());
    proc_macro2::Literal::f32_suffixed(value).to_string()
}

/// The text of `proc_macro2::Literal::f64_suffixed`, which accepts finite numbers only. The
/// text is a function of the number; which digits it has is left to that crate.
#[verifier::external_body]
fn write_double(bits: u64) -> (r: String)
    requires
        (F64 { bits }).finite(),
    ensures
        r@ == double_literal(bits),
{
    let value = byteorder::LittleEndian::read_f64(&bits.to_le_bytes());
    proc_macro2::Literal::f64_suffixed(value).to_string()
}

pub const COMMA: &'static str = " , ";

pub const PLUS: &'static str = " + ";

/// The sign of a negative number, which is a token of its own.
pub const MINUS: &'static str = "- ";

/// An integer with its sign as a token.
pub open spec fn signed(n: int) -> Seq<char> {
    if n < 0 {
        MINUS@ + text::decimal((-n) as nat)
    } else {
        text::decimal(n as nat)
    }
}

fn push_signed(out: &mut String, n: i64)
    ensures
        final(out)@ == old(out)@ + signed(n as int),
{
    if n < 0 {
        out.append(MINUS);
        text::push_decimal(out, (-(n + 1)) as u64 + 1);
    } else {
        text::push_decimal(out, n as u64);
    }
    assert(out@ =~= old(out)@ + signed(n as int));
}

/// A value that has a spelling in Rust source.
pub trait Token {
    spec fn spelling(&self) -> Seq<char>;

    /// Appends the spelling.
    fn put(&self, out: &mut String)
        ensures
            final(out)@ == old(out)@ + self.spelling(),
    ;
}

impl Token for u8 {
    open spec fn spelling(&self) -> Seq<char> {
        text::decimal(*self as nat) + "u8"@
    }

    fn put(&self, out: &mut String) {
        text::push_decimal(out, *self as u64);
        out.append("u8");
        assert(out@ =~= old(out)@ + self.spelling());
    }
}

impl Token for u16 {
    open spec fn spelling(&self) -> Seq<char> {
        text::decimal(*self as nat) + "u16"@
    }

    fn put(&self, out: &mut String) {
        text::push_decimal(out, *self as u64);
        out.append("u16");
        assert(out@ =~= old(out)@ + self.spelling());
    }
}

impl Token for u32 {
    open spec fn spelling(&self) -> Seq<char> {
        text::decimal(*self as nat) + "u32"@
    }

    fn put(&self, out: &mut String) {
        text::push_decimal(out, *self as u64);
        out.append("u32");
        assert(out@ =~= old(out)@ + self.spelling());
    }
}

impl Token for u64 {
    open spec fn spelling(&self) -> Seq<char> {
        text::decimal(*self as nat) + "u64"@
    }

    fn put(&self, out: &mut String) {
        text::push_decimal(out, *self);
        out.append("u64");
        assert(out@ =~= old(out)@ + self.spelling());
    }
}

impl Token for usize {
    open spec fn spelling(&self) -> Seq<char> {
        text::decimal(*self as nat) + "usize"@
    }

    fn put(&self, out: &mut String) {
        text::push_decimal(out, *self as u64);
        out.append("usize");
        assert(out@ =~= old(out)@ + self.spelling());
    }
}

impl Token for i32 {
    open spec fn spelling(&self) -> Seq<char> {
        signed(*self as int) + "i32"@
    }

    fn put(&self, out: &mut String) {
        push_signed(out, *self as i64);
        out.append("i32");
        assert(out@ =~= old(out)@ + self.spelling());
    }
}

impl Token for i64 {
    open spec fn spelling(&self) -> Seq<char> {
        signed(*self as int) + "i64"@
    }

    fn put(&self, out: &mut String) {
        push_signed(out, *self);
        out.append("i64");
        assert(out@ =~= old(out)@ + self.spelling());
    }
}

/// A literal for a finite number, the name of a constant for any other.
impl Token for F32 {
    open spec fn spelling(&self) -> Seq<char> {
        if self.finite() && self.negative() {
            MINUS@ + single_literal((self.bits - 0x8000_0000) as u32)
        } else if self.finite() {
            single_literal(self.bits)
        } else if self.nan() {
            "f32 :: NAN"@
        } else if self.negative() {
            "f32 :: NEG_INFINITY"@
        } else {
            "f32 :: INFINITY"@
        }
    }

    fn put(&self, out: &mut String) {
        if self.is_finite() {
            let magnitude: u32 = if self.bits >= 0x8000_0000 {
                out.append(MINUS);
                self.bits - 0x8000_0000
            } else {
                self.bits
            };
            out.append(write_single(magnitude).as_str());
            assert(out@ =~= old(out)@ + self.spelling());
        } else if self.is_nan() {
            out.append("f32 :: NAN");
        } else if self.bits >= 0x8000_0000 {
            out.append("f32 :: NEG_INFINITY");
        } else {
            out.append("f32 :: INFINITY");
        }
    }
}

/// A literal for a finite number, the name of a constant for any other.
impl Token for F64 {
    open spec fn spelling(&self) -> Seq<char> {
        if self.finite() && self.negative() {
            MINUS@ + double_literal((self.bits - 0x8000_0000_0000_0000) as u64)
        } else if self.finite() {
            double_literal(self.bits)
        } else if self.nan() {
            "f64 :: NAN"@
        } else if self.negative() {
            "f64 :: NEG_INFINITY"@
        } else {
            "f64 :: INFINITY"@
        }
    }

    fn put(&self, out: &mut String) {
        if self.is_finite() {
            let magnitude: u64 = if self.bits >= 0x8000_0000_0000_0000 {
                out.append(MINUS);
                self.bits - 0x8000_0000_0000_0000
            } else {
                self.bits
            };
            out.append(write_double(magnitude).as_str());
            assert(out@ =~= old(out)@ + self.spelling());
        } else if self.is_nan() {
            out.append("f64 :: NAN");
        } else if self.bits >= 0x8000_0000_0000_0000 {
            out.append("f64 :: NEG_INFINITY");
        } else {
            out.append("f64 :: INFINITY");
        }
    }
}

/// The parts of a list with a separator between them.
pub open spec fn joined(parts: Seq<Seq<char>>, sep: Seq<char>) -> Seq<char>
    decreases parts.len(),
{
    if parts.len() == 0 {
        seq![]
    } else if parts.len() == 1 {
        parts[0]
    } else {
        joined(parts.drop_last(), sep) + sep + parts.last()
    }
}

/// The spellings of the items of a list.
pub open spec fn spellings<T: Token>(items: Seq<T>) -> Seq<Seq<char>> {
    items.map_values(|item: T| item.spelling())
}

/// One step of building a joined list.
pub proof fn lemma_joined_step(parts: Seq<Seq<char>>, sep: Seq<char>, i: int)
    requires
        0 <= i < parts.len(),
    ensures
        joined(parts.take(i + 1), sep) == (if i == 0 {
            parts[0]
        } else {
            joined(parts.take(i), sep) + sep + parts[i]
        }),
{
    let longer = parts.take(i + 1);
    assert(longer.drop_last() =~= parts.take(i));
}

/// Appends a list of tokens with commas between them.
pub fn push_list<T: Token>(out: &mut String, items: &[T])
    ensures
        final(out)@ == old(out)@ + joined(spellings(items@), COMMA@),
{
    let mut i: usize = 0;
    let ghost parts = spellings(items@);
    assert(out@ =~= old(out)@ + joined(parts.take(0), COMMA@));
    while i < items.len()
        invariant
            i <= items.len(),
            parts == spellings(items@),
            out@ == old(out)@ + joined(parts.take(i as int), COMMA@),
        decreases items.len() - i,
    {
        proof {
            lemma_joined_step(parts, COMMA@, i as int);
            assert(parts[i as int] == items@[i as int].spelling());
        }
        let ghost before = out@;
        if i > 0 {
            out.append(COMMA);
        }
        items[i].put(out);
        proof {
            if i == 0 {
                assert(parts.take(0) =~= Seq::empty());
                assert(out@ =~= old(out)@ + parts[0]);
            } else {
                assert(out@ =~= old(out)@ + (joined(parts.take(i as int), COMMA@) + COMMA@
                    + parts[i as int]));
            }
        }
        i = i + 1;
    }
    assert(parts.take(parts.len() as int) =~= parts);
}

/// A number is written as its literal, with its sign before it, and what is no finite number by
/// the name of its constant.
pub proof fn numbers_are_written_with_their_sign(x: F32, y: F64)
    ensures
        x.finite() && !x.negative() ==> x.spelling() == single_literal(x.bits),
        x.finite() && x.negative() ==> x.spelling() == "- "@ + (F32 {
            bits: (x.bits - 0x8000_0000) as u32,
        }).spelling(),
        x.nan() ==> x.spelling() == "f32 :: NAN"@,
        !x.finite() && !x.nan() ==> x.spelling() == (if x.negative() {
            "f32 :: NEG_INFINITY"@
        } else {
            "f32 :: INFINITY"@
        }),
        y.finite() && !y.negative() ==> y.spelling() == double_literal(y.bits),
        y.finite() && y.negative() ==> y.spelling() == "- "@ + (F64 {
            bits: (y.bits - 0x8000_0000_0000_0000) as u64,
        }).spelling(),
        y.nan() ==> y.spelling() == "f64 :: NAN"@,
        !y.finite() && !y.nan() ==> y.spelling() == (if y.negative() {
            "f64 :: NEG_INFINITY"@
        } else {
            "f64 :: INFINITY"@
        }),
{
}

/// A list has the texts of its items in their order, with the separator between any two.
pub proof fn lists_hold_their_items_in_order(
    before: Seq<Seq<char>>,
    part: Seq<char>,
    sep: Seq<char>,
)
    ensures
        joined(before.push(part), sep) == (if before.len() == 0 {
            part
        } else {
            joined(before, sep) + sep + part
        }),
        joined(Seq::<Seq<char>>::empty(), sep) == Seq::<char>::empty(),
{
    assert(before.push(part).drop_last() =~= before);
}

} // verus!
