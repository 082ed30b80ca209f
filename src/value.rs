use vstd::prelude::*;

use crate::error::push_char;

verus! {

/// Words below this one are IEEE-754 doubles; it is also the quiet NaN.
pub const NAN_TAG: u64 = 0xfff8_0000_0000_0000;
pub const INT_TAG: u64 = 0xfff9_0000_0000_0000;
pub const CHR_TAG: u64 = 0xfffa_0000_0000_0000;
pub const PTR_TAG: u64 = 0xfffb_0000_0000_0000;
pub const FUN_TAG: u64 = 0xfffc_0000_0000_0000;
pub const TRUE_TAG: u64 = 0xfffd_0000_0000_0000;
pub const FALSE_TAG: u64 = 0xfffe_0000_0000_0000;
pub const NULL_TAG: u64 = 0xffff_0000_0000_0000;

/// The high sixteen bits of a word.
pub open spec fn tag_of(w: u64) -> u64 {
    w >> 48u64
}

/// A valid Unicode scalar value.
pub open spec fn is_scalar(u: u32) -> bool {
    u <= 0x10ffff && !(0xd800 <= u && u <= 0xdfff)
}

/// A NaN-boxed value: one 64-bit word whose high sixteen bits say what it holds.
#[derive(Clone, Copy, PartialEq, Eq, Structural, Debug)]
pub struct Value(pub u64);

impl Value {
    pub open spec fn spec_is_num(&self) -> bool {
        self.0 < NAN_TAG
    }

    pub open spec fn spec_is_int(&self) -> bool {
        tag_of(self.0) == 0xfff9
    }

    pub open spec fn spec_is_char(&self) -> bool {
        tag_of(self.0) == 0xfffa
    }

    pub open spec fn spec_is_ptr(&self) -> bool {
        tag_of(self.0) == 0xfffb
    }

    pub open spec fn spec_is_function(&self) -> bool {
        tag_of(self.0) == 0xfffc
    }

    /// The signed integer held in the low 32 bits.
    pub open spec fn int_value(self) -> i32 {
        (self.0 as u32) as i32
    }

    /// The low 32 bits, read as a character scalar or a function index.
    pub open spec fn low32(self) -> u32 {
        self.0 as u32
    }

    pub open spec fn of_int(i: i32) -> Value {
        Value(INT_TAG | (i as u32) as u64)
    }

    pub open spec fn of_char(c: char) -> Value {
        Value(CHR_TAG | (c as u32) as u64)
    }

    pub open spec fn of_bool(b: bool) -> Value {
        if b {
            Value(TRUE_TAG)
        } else {
            Value(FALSE_TAG)
        }
    }

    pub open spec fn of_function(f: u16) -> Value {
        Value(FUN_TAG | f as u64)
    }

    #[verifier::when_used_as_spec(spec_is_num)]
    pub fn is_num(&self) -> (r: bool)
        ensures
            r == self.spec_is_num(),
    {
        self.0 < NAN_TAG
    }

    #[verifier::when_used_as_spec(spec_is_int)]
    pub fn is_int(&self) -> (r: bool)
        ensures
            r == self.spec_is_int(),
    {
        (self.0 >> 48u64) == 0xfff9
    }

    #[verifier::when_used_as_spec(spec_is_char)]
    pub fn is_char(&self) -> (r: bool)
        ensures
            r == self.spec_is_char(),
    {
        (self.0 >> 48u64) == 0xfffa
    }

    #[verifier::when_used_as_spec(spec_is_ptr)]
    pub fn is_ptr(&self) -> (r: bool)
        ensures
            r == self.spec_is_ptr(),
    {
        (self.0 >> 48u64) == 0xfffb
    }

    #[verifier::when_used_as_spec(spec_is_function)]
    pub fn is_function(&self) -> (r: bool)
        ensures
            r == self.spec_is_function(),
    {
        (self.0 >> 48u64) == 0xfffc
    }

    pub open spec fn spec_is_null(&self) -> bool {
        tag_of(self.0) == 0xffff
    }

    pub open spec fn spec_is_true(&self) -> bool {
        tag_of(self.0) == 0xfffd
    }

    pub open spec fn spec_is_false(&self) -> bool {
        tag_of(self.0) == 0xfffe
    }

    #[verifier::when_used_as_spec(spec_is_null)]
    pub fn is_null(&self) -> (r: bool)
        ensures
            r == self.spec_is_null(),
    {
        (self.0 >> 48u64) == 0xffff
    }

    #[verifier::when_used_as_spec(spec_is_true)]
    pub fn is_true(&self) -> (r: bool)
        ensures
            r == self.spec_is_true(),
    {
        (self.0 >> 48u64) == 0xfffd
    }

    #[verifier::when_used_as_spec(spec_is_false)]
    pub fn is_false(&self) -> (r: bool)
        ensures
            r == self.spec_is_false(),
    {
        (self.0 >> 48u64) == 0xfffe
    }

    pub fn raw(v: u64) -> (r: Value)
        ensures
            r.0 == v,
    {
        Value(v)
    }

    /// A pointer value; only the low 48 bits of the address are kept.
    pub fn ptr(address: u64) -> (r: Value)
        ensures
            r.0 == PTR_TAG | (address & 0xffff_ffff_ffff),
            r.spec_is_ptr(),
    {
        let r = Value(PTR_TAG | (address & 0xffff_ffff_ffffu64));
        assert((PTR_TAG | (address & 0xffff_ffff_ffffu64)) >> 48u64 == 0xfffb) by (bit_vector)
            requires PTR_TAG == 0xfffb_0000_0000_0000u64;
        r
    }

    pub fn null() -> (r: Value)
        ensures
            r.0 == NULL_TAG,
    {
        Value(NULL_TAG)
    }

    pub fn nan() -> (r: Value)
        ensures
            r.0 == NAN_TAG,
            !r.spec_is_num(),
    {
        Value(NAN_TAG)
    }

    pub fn get_raw(&self) -> (r: u64)
        ensures
            r == self.0,
    {
        self.0
    }

    pub fn function(index: u16) -> (r: Value)
        ensures
            r == Value::of_function(index),
            r.spec_is_function(),
            r.low32() == index as u32,
    {
        let r = Value(FUN_TAG | index as u64);
        assert((FUN_TAG | index as u64) >> 48u64 == 0xfffc && (FUN_TAG | index as u64) as u32
            == index as u32) by (bit_vector)
            requires FUN_TAG == 0xfffc_0000_0000_0000u64;
        r
    }

    pub fn get_int(&self) -> (r: i32)
        requires
            self.spec_is_int(),
        ensures
            r == self.int_value(),
    {
        self.0 as u32 as i32
    }

    pub fn get_int_unchecked(&self) -> (r: i32)
        ensures
            r == self.int_value(),
    {
        self.0 as u32 as i32
    }

    /// The integer coercion of an integer-tagged value: its low 32 bits,
    /// sign-extended. (A double is truncated by the host, which owns floating point.)
    pub fn as_int(&self) -> (r: i64)
        requires
            self.spec_is_int(),
        ensures
            r == self.int_value() as int,
    {
        self.get_int_unchecked() as i64
    }

    pub fn get_char(&self) -> (r: char)
        requires
            self.spec_is_char(),
            is_scalar(self.low32()),
        ensures
            r as u32 == self.low32(),
    {
        self.get_char_unchecked()
    }

    pub fn get_char_unchecked(&self) -> (r: char)
        requires
            is_scalar(self.low32()),
        ensures
            r as u32 == self.low32(),
    {
        let c = char_from_scalar(self.0 as u32);
        match c {
            Some(c) => c,
            None => {
                proof {
                    assert(false);
                }
                '\0'
            },
        }
    }
}

/// Relies on std's `char::from_u32`: `Some` exactly for valid scalar values,
/// holding the character with that scalar.
#[verifier::external_body]
fn char_from_scalar(u: u32) -> (r: Option<char>)
    ensures
        r is Some <==> is_scalar(u),
        r is Some ==> r->0 as u32 == u,
{
    char::from_u32(u)
}

impl From<bool> for Value {
    fn from(b: bool) -> (r: Value) {
        if b {
            Value(TRUE_TAG)
        } else {
            Value(FALSE_TAG)
        }
    }
}

impl vstd::std_specs::convert::FromSpecImpl<bool> for Value {
    open spec fn obeys_from_spec() -> bool {
        true
    }

    open spec fn from_spec(b: bool) -> Value {
        Value::of_bool(b)
    }
}

impl From<i32> for Value {
    fn from(i: i32) -> (r: Value) {
        Value(INT_TAG | (i as u32) as u64)
    }
}

impl vstd::std_specs::convert::FromSpecImpl<i32> for Value {
    open spec fn obeys_from_spec() -> bool {
        true
    }

    open spec fn from_spec(i: i32) -> Value {
        Value::of_int(i)
    }
}

impl From<char> for Value {
    fn from(c: char) -> (r: Value) {
        Value(CHR_TAG | (c as u32) as u64)
    }
}

impl vstd::std_specs::convert::FromSpecImpl<char> for Value {
    open spec fn obeys_from_spec() -> bool {
        true
    }

    open spec fn from_spec(c: char) -> Value {
        Value::of_char(c)
    }
}


/// Two integers give the same word exactly when they are equal, so comparing
/// words tells integers apart.
pub proof fn lemma_int_encoding_injective(a: i32, b: i32)
    ensures
        (Value::of_int(a) == Value::of_int(b)) <==> (a == b),
{
    let x = a as u32;
    let y = b as u32;
    assert((INT_TAG | x as u64) == (INT_TAG | y as u64) ==> x == y) by (bit_vector)
        requires
            INT_TAG == 0xfff9_0000_0000_0000u64,
    ;
    assert((a as u32) == (b as u32) ==> a == b) by (bit_vector);
}

/// Two characters give the same word exactly when they are equal.
pub proof fn lemma_char_encoding_injective(a: char, b: char)
    ensures
        (Value::of_char(a) == Value::of_char(b)) <==> (a == b),
{
    let x = a as u32;
    let y = b as u32;
    assert((CHR_TAG | x as u64) == (CHR_TAG | y as u64) ==> x == y) by (bit_vector)
        requires
            CHR_TAG == 0xfffa_0000_0000_0000u64,
    ;
}

/// Two booleans give the same word exactly when they are equal.
pub proof fn lemma_bool_encoding_injective(a: bool, b: bool)
    ensures
        (Value::of_bool(a) == Value::of_bool(b)) <==> (a == b),
{
}

/// Reading an integer back gives the integer that was stored.
pub proof fn lemma_int_round_trip(i: i32)
    ensures
        Value::of_int(i).spec_is_int(),
        Value::of_int(i).int_value() == i,
{
    let x = i as u32;
    assert(((INT_TAG | x as u64) >> 48u64) == 0xfff9 && (INT_TAG | x as u64) as u32 == x)
        by (bit_vector)
        requires
            INT_TAG == 0xfff9_0000_0000_0000u64,
    ;
    assert((i as u32) as i32 == i) by (bit_vector);
}


pub open spec fn digit_of(d: int) -> char {
    if d == 0 { '0' }
    else if d == 1 { '1' }
    else if d == 2 { '2' }
    else if d == 3 { '3' }
    else if d == 4 { '4' }
    else if d == 5 { '5' }
    else if d == 6 { '6' }
    else if d == 7 { '7' }
    else if d == 8 { '8' }
    else if d == 9 { '9' }
    else if d == 10 { 'A' }
    else if d == 11 { 'B' }
    else if d == 12 { 'C' }
    else if d == 13 { 'D' }
    else if d == 14 { 'E' }
    else { 'F' }
}

/// `n` written in `base` (10 or 16), with at least `width` digits.
pub open spec fn numeral(n: nat, base: nat, width: nat) -> Seq<char>
    decreases n, width
    via numeral_decreases
{
    if base < 2 {
        Seq::empty()
    } else if n >= base || width > 1 {
        numeral(n / base, base, if width > 0 {
            (width - 1) as nat
        } else {
            0
        }).push(digit_of((n % base) as int))
    } else {
        seq![digit_of(n as int)]
    }
}

#[via_fn]
proof fn numeral_decreases(n: nat, base: nat, width: nat) {
    if base >= 2 && (n >= base || width > 1) {
        if n >= 1 {
            assert(n / base < n) by (nonlinear_arith)
                requires
                    n >= 1,
                    base >= 2,
            ;
        } else {
            assert(n / base == 0) by (nonlinear_arith)
                requires
                    n == 0,
                    base >= 2,
            ;
        }
    }
}

/// How `WRITE` shows an integer.
pub open spec fn int_text(i: int) -> Seq<char> {
    if i < 0 {
        seq!['-'] + numeral((-i) as nat, 10, 1)
    } else {
        numeral(i as nat, 10, 1)
    }
}

/// `t` is how `WRITE` shows `v`; doubles are shown by the host.
pub open spec fn shows(v: Value, t: Seq<char>) -> bool {
    if v.spec_is_num() {
        false
    } else if v.spec_is_int() {
        t == int_text(v.int_value() as int)
    } else if v.spec_is_char() && is_scalar(v.low32()) {
        t.len() == 1 && t[0] as u32 == v.low32()
    } else if v.spec_is_ptr() {
        t == "0x"@ + numeral((v.0 % 0x1_0000_0000_0000) as nat, 16, 8)
    } else if v.spec_is_function() {
        t == "@"@ + numeral(v.low32() as nat, 10, 1)
    } else if v.spec_is_null() {
        t == "null"@
    } else if v.spec_is_true() {
        t == "true"@
    } else if v.spec_is_false() {
        t == "false"@
    } else {
        t == "NAN"@
    }
}

fn digit_exec(d: u64) -> (r: char)
    requires
        d < 16,
    ensures
        r == digit_of(d as int),
{
    match d {
        0 => '0',
        1 => '1',
        2 => '2',
        3 => '3',
        4 => '4',
        5 => '5',
        6 => '6',
        7 => '7',
        8 => '8',
        9 => '9',
        10 => 'A',
        11 => 'B',
        12 => 'C',
        13 => 'D',
        14 => 'E',
        _ => 'F',
    }
}

fn push_numeral(s: &mut String, n: u64, base: u64, width: u64)
    requires
        base == 10 || base == 16,
    ensures
        final(s)@ == old(s)@ + numeral(n as nat, base as nat, width as nat),
    decreases n, width,
{
    if n >= base || width > 1 {
        let w = if width > 0 {
            width - 1
        } else {
            0
        };
        push_numeral(s, n / base, base, w);
        push_char(s, digit_exec(n % base));
        assert(final(s)@ =~= old(s)@ + numeral(n as nat, base as nat, width as nat));
    } else {
        push_char(s, digit_exec(n));
        assert(final(s)@ =~= old(s)@ + numeral(n as nat, base as nat, width as nat));
    }
}

impl Value {
    /// How `WRITE` shows this value: integers in decimal, a character as itself,
    /// `true`, `false`, `null`, a pointer as `0x` and at least eight hex digits of
    /// its address, a function as `@` and its index. `None` for a double, which the
    /// host shows.
    pub fn text(&self) -> (r: Option<String>)
        ensures
            self.spec_is_num() <==> r is None,
            r matches Some(t) ==> shows(*self, t@),
    {
        let w = self.0;
        if self.is_num() {
            return None;
        }
        let mut t = String::new();
        if self.is_int() {
            let i = self.get_int_unchecked() as i64;
            if i < 0 {
                push_char(&mut t, '-');
                push_numeral(&mut t, (-i) as u64, 10, 1);
            } else {
                push_numeral(&mut t, i as u64, 10, 1);
            }
        } else if self.is_char() && char_from_scalar(w as u32).is_some() {
            push_char(&mut t, self.get_char_unchecked());
        } else if self.is_ptr() {
            t.append("0x");
            push_numeral(&mut t, w % 0x1_0000_0000_0000, 16, 8);
        } else if self.is_function() {
            t.append("@");
            push_numeral(&mut t, (w as u32) as u64, 10, 1);
        } else if self.is_null() {
            t.append("null");
        } else if self.is_true() {
            t.append("true");
        } else if self.is_false() {
            t.append("false");
        } else {
            t.append("NAN");
        }
        Some(t)
    }
}

} // verus!
