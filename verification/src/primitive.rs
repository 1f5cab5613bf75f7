//! Fixed-width integers and their bytes in either byte order.

use vstd::prelude::*;

verus! {

/// The order in which the bytes of an integer are written.
#[derive(Debug, Clone, Copy, PartialEq, Eq, Structural)]
pub enum ByteOrder {
    /// Least significant byte first.
    LittleEndian,
    /// Most significant byte first.
    BigEndian,
}

/// An integer type of fixed width.
#[derive(Debug, Clone, Copy, PartialEq, Eq, Structural)]
pub enum IntType {
    U8,
    U16,
    U32,
    U64,
    I8,
    I16,
    I32,
    I64,
}

impl IntType {
    /// The number of bytes that a value of this type occupies.
    pub open spec fn spec_width(self) -> nat {
        match self {
            IntType::U8 | IntType::I8 => 1,
            IntType::U16 | IntType::I16 => 2,
            IntType::U32 | IntType::I32 => 4,
            IntType::U64 | IntType::I64 => 8,
        }
    }

    /// Whether the type has negative values.
    pub open spec fn spec_is_signed(self) -> bool {
        match self {
            IntType::I8 | IntType::I16 | IntType::I32 | IntType::I64 => true,
            _ => false,
        }
    }

    /// The number of values of this type: 256 to the power of its width.
    pub open spec fn modulus(self) -> int {
        match self {
            IntType::U8 | IntType::I8 => 0x100,
            IntType::U16 | IntType::I16 => 0x1_0000,
            IntType::U32 | IntType::I32 => 0x1_0000_0000,
            IntType::U64 | IntType::I64 => 0x1_0000_0000_0000_0000,
        }
    }

    /// The least value of this type.
    pub open spec fn min_value(self) -> int {
        if self.spec_is_signed() {
            -(self.modulus() / 2)
        } else {
            0
        }
    }

    /// The greatest value of this type.
    pub open spec fn max_value(self) -> int {
        if self.spec_is_signed() {
            self.modulus() / 2 - 1
        } else {
            self.modulus() - 1
        }
    }

    /// Whether `value` is a value of this type.
    pub open spec fn admits(self, value: int) -> bool {
        self.min_value() <= value <= self.max_value()
    }

    /// The number of bytes that a value of this type occupies.
    pub fn width(self) -> (w: usize)
        ensures
            w == self.spec_width(),
    {
        match self {
            IntType::U8 | IntType::I8 => 1,
            IntType::U16 | IntType::I16 => 2,
            IntType::U32 | IntType::I32 => 4,
            IntType::U64 | IntType::I64 => 8,
        }
    }

    /// Whether the type has negative values.
    pub fn is_signed(self) -> (s: bool)
        ensures
            s == self.spec_is_signed(),
    {
        match self {
            IntType::I8 | IntType::I16 | IntType::I32 | IntType::I64 => true,
            _ => false,
        }
    }

    /// Tells whether `value` is a value of this type.
    pub fn holds(self, value: i128) -> (r: bool)
        ensures
            r == self.admits(value as int),
    {
        match self {
            IntType::U8 => 0 <= value && value <= 0xff,
            IntType::U16 => 0 <= value && value <= 0xffff,
            IntType::U32 => 0 <= value && value <= 0xffff_ffff,
            IntType::U64 => 0 <= value && value <= 0xffff_ffff_ffff_ffff,
            IntType::I8 => -0x80 <= value && value <= 0x7f,
            IntType::I16 => -0x8000 <= value && value <= 0x7fff,
            IntType::I32 => -0x8000_0000 <= value && value <= 0x7fff_ffff,
            IntType::I64 => -0x8000_0000_0000_0000 <= value && value <= 0x7fff_ffff_ffff_ffff,
        }
    }
}

/// 256 to the power of `width`.
pub open spec fn radix(width: nat) -> int
    decreases width,
{
    if width == 0 {
        1
    } else {
        256 * radix((width - 1) as nat)
    }
}

/// The `width` low bytes of `value`, least significant first.  A negative
/// value is written in two's complement.
pub open spec fn le_bytes(value: int, width: nat) -> Seq<u8>
    decreases width,
{
    if width == 0 {
        Seq::empty()
    } else {
        seq![(value % 256) as u8] + le_bytes(value / 256, (width - 1) as nat)
    }
}

/// The natural number that `bytes` spell, least significant first.
pub open spec fn le_value(bytes: Seq<u8>) -> int
    decreases bytes.len(),
{
    if bytes.len() == 0 {
        0
    } else {
        bytes[0] as int + 256 * le_value(bytes.skip(1))
    }
}

/// Bytes given least significant first, put into `order`; and back.
pub open spec fn ordered(bytes: Seq<u8>, order: ByteOrder) -> Seq<u8> {
    match order {
        ByteOrder::LittleEndian => bytes,
        ByteOrder::BigEndian => bytes.reverse(),
    }
}

/// The bytes of `value` as a value of type `ty`, in `order`.
pub open spec fn int_bytes(ty: IntType, value: int, order: ByteOrder) -> Seq<u8> {
    ordered(le_bytes(value, ty.spec_width()), order)
}

/// The value of type `ty` that `bytes` spell in `order`.
pub open spec fn bytes_int(ty: IntType, bytes: Seq<u8>, order: ByteOrder) -> int {
    let raw = le_value(ordered(bytes, order));
    if ty.spec_is_signed() && raw >= ty.modulus() / 2 {
        raw - ty.modulus()
    } else {
        raw
    }
}

proof fn lemma_modulus_is_radix(ty: IntType)
    ensures
        ty.modulus() == radix(ty.spec_width()),
{
    reveal_with_fuel(radix, 9);
}

proof fn lemma_le_bytes_len(value: int, width: nat)
    ensures
        le_bytes(value, width).len() == width,
    decreases width,
{
    if width > 0 {
        lemma_le_bytes_len(value / 256, (width - 1) as nat);
    }
}

proof fn lemma_le_value_bound(bytes: Seq<u8>)
    ensures
        0 <= le_value(bytes) < radix(bytes.len()),
    decreases bytes.len(),
{
    if bytes.len() > 0 {
        lemma_le_value_bound(bytes.skip(1));
    }
}

proof fn lemma_le_value_of_le_bytes(value: int, width: nat)
    requires
        0 <= value < radix(width),
    ensures
        le_value(le_bytes(value, width)) == value,
    decreases width,
{
    if width > 0 {
        let rest = le_bytes(value / 256, (width - 1) as nat);
        let all = le_bytes(value, width);
        assert(all.skip(1) == rest);
        lemma_le_value_of_le_bytes(value / 256, (width - 1) as nat);
    }
}

proof fn lemma_le_bytes_of_le_value(bytes: Seq<u8>)
    ensures
        le_bytes(le_value(bytes), bytes.len()) == bytes,
    decreases bytes.len(),
{
    if bytes.len() > 0 {
        let tail = bytes.skip(1);
        lemma_le_bytes_of_le_value(tail);
        let v = le_value(bytes);
        assert(v % 256 == bytes[0] as int && v / 256 == le_value(tail)) by {
            vstd::arithmetic::div_mod::lemma_fundamental_div_mod_converse(
                v,
                256,
                le_value(tail),
                bytes[0] as int,
            );
        }
        assert(le_bytes(v, bytes.len()) == bytes);
    }
}

proof fn lemma_le_bytes_wraps(value: int, width: nat)
    ensures
        le_bytes(value + radix(width), width) == le_bytes(value, width),
    decreases width,
{
    if width > 0 {
        let r = radix((width - 1) as nat);
        assert((value + 256 * r) % 256 == value % 256 && (value + 256 * r) / 256 == value / 256
            + r) by {
            vstd::arithmetic::div_mod::lemma_fundamental_div_mod(value, 256);
            vstd::arithmetic::div_mod::lemma_fundamental_div_mod_converse(
                value + 256 * r,
                256,
                value / 256 + r,
                value % 256,
            );
        }
        lemma_le_bytes_wraps(value / 256, (width - 1) as nat);
    }
}

proof fn lemma_ordered_twice(bytes: Seq<u8>, order: ByteOrder)
    ensures
        ordered(ordered(bytes, order), order) == bytes,
        ordered(bytes, order).len() == bytes.len(),
{
    assert(bytes.reverse().reverse() =~= bytes);
}

pub(crate) proof fn lemma_int_bytes_len(ty: IntType, value: int, order: ByteOrder)
    ensures
        int_bytes(ty, value, order).len() == ty.spec_width(),
{
    lemma_le_bytes_len(value, ty.spec_width());
    lemma_ordered_twice(le_bytes(value, ty.spec_width()), order);
}

/// Reading back the bytes of a value gives the value.
pub proof fn law_int_round_trip(ty: IntType, value: int, order: ByteOrder)
    requires
        ty.admits(value),
    ensures
        int_bytes(ty, value, order).len() == ty.spec_width(),
        bytes_int(ty, int_bytes(ty, value, order), order) == value,
{
    let w = ty.spec_width();
    lemma_modulus_is_radix(ty);
    lemma_le_bytes_len(value, w);
    lemma_ordered_twice(le_bytes(value, w), order);
    if value >= 0 {
        lemma_le_value_of_le_bytes(value, w);
    } else {
        lemma_le_bytes_wraps(value, w);
        lemma_le_value_of_le_bytes(value + radix(w), w);
    }
}

/// Writing the value that bytes spell gives the bytes, and that value is
/// one of the type.
pub proof fn law_bytes_round_trip(ty: IntType, bytes: Seq<u8>, order: ByteOrder)
    requires
        bytes.len() == ty.spec_width(),
    ensures
        ty.admits(bytes_int(ty, bytes, order)),
        int_bytes(ty, bytes_int(ty, bytes, order), order) == bytes,
{
    let w = ty.spec_width();
    let le = ordered(bytes, order);
    lemma_modulus_is_radix(ty);
    lemma_ordered_twice(bytes, order);
    lemma_le_value_bound(le);
    lemma_le_bytes_of_le_value(le);
    let raw = le_value(le);
    if bytes_int(ty, bytes, order) != raw {
        lemma_le_bytes_wraps(raw - radix(w), w);
    }
}

proof fn lemma_radix_bound(width: nat)
    requires
        width <= 8,
    ensures
        1 <= radix(width) <= 0x1_0000_0000_0000_0000,
{
    reveal_with_fuel(radix, 9);
}

/// The integer type that `name` names, if it names one.
pub open spec fn type_named(name: Seq<char>) -> Option<IntType> {
    if name == "u8"@ {
        Some(IntType::U8)
    } else if name == "u16"@ {
        Some(IntType::U16)
    } else if name == "u32"@ {
        Some(IntType::U32)
    } else if name == "u64"@ {
        Some(IntType::U64)
    } else if name == "i8"@ {
        Some(IntType::I8)
    } else if name == "i16"@ {
        Some(IntType::I16)
    } else if name == "i32"@ {
        Some(IntType::I32)
    } else if name == "i64"@ {
        Some(IntType::I64)
    } else {
        None
    }
}

fn same_text(text: &String, literal: &str) -> (r: bool)
    ensures
        r == (text@ == literal@),
{
    let other = literal.to_owned();
    *text == other
}

impl IntType {
    /// Finds the integer type called `name`.
    pub fn from_name(name: &str) -> (r: Option<IntType>)
        ensures
            r == type_named(name@),
    {
        let text = name.to_owned();
        if same_text(&text, "u8") {
            Some(IntType::U8)
        } else if same_text(&text, "u16") {
            Some(IntType::U16)
        } else if same_text(&text, "u32") {
            Some(IntType::U32)
        } else if same_text(&text, "u64") {
            Some(IntType::U64)
        } else if same_text(&text, "i8") {
            Some(IntType::I8)
        } else if same_text(&text, "i16") {
            Some(IntType::I16)
        } else if same_text(&text, "i32") {
            Some(IntType::I32)
        } else if same_text(&text, "i64") {
            Some(IntType::I64)
        } else {
            None
        }
    }

    fn modulus_value(self) -> (m: i128)
        ensures
            m == self.modulus(),
    {
        match self {
            IntType::U8 | IntType::I8 => 0x100,
            IntType::U16 | IntType::I16 => 0x1_0000,
            IntType::U32 | IntType::I32 => 0x1_0000_0000,
            IntType::U64 | IntType::I64 => 0x1_0000_0000_0000_0000,
        }
    }
}

/// Appends the bytes of `value`, a value of type `ty`, to `out`.
pub(crate) fn write_int(ty: IntType, value: i128, order: ByteOrder, out: &mut Vec<u8>)
    requires
        ty.admits(value as int),
    ensures
        final(out)@ == old(out)@ + int_bytes(ty, value as int, order),
{
    let width = ty.width();
    let ghost start = out@;
    let modulus = ty.modulus_value();
    let raw: u128 = if value < 0 {
        (value + modulus) as u128
    } else {
        value as u128
    };
    proof {
        lemma_modulus_is_radix(ty);
        if value < 0 {
            lemma_le_bytes_wraps(value as int, width as nat);
        }
    }
    let mut le: Vec<u8> = Vec::new();
    let mut rest: u128 = raw;
    let mut k: usize = 0;
    while k < width
        invariant
            k <= width,
            le@.len() == k,
            le@ + le_bytes(rest as int, (width - k) as nat) == le_bytes(raw as int, width as nat),
        decreases width - k,
    {
        let ghost before = le@;
        let ghost tail = le_bytes((rest / 256) as int, (width - k - 1) as nat);
        le.push((rest % 256) as u8);
        proof {
            assert(le@ + tail == before + le_bytes(rest as int, (width - k) as nat));
        }
        rest = rest / 256;
        k += 1;
    }
    proof {
        assert(le@ + Seq::<u8>::empty() == le@);
        lemma_le_bytes_len(raw as int, width as nat);
    }
    let mut j: usize = 0;
    while j < width
        invariant
            j <= width,
            le@.len() == width,
            out@ == start + ordered(le@, order).take(j as int),
        decreases width - j,
    {
        let byte = match order {
            ByteOrder::LittleEndian => le[j],
            ByteOrder::BigEndian => le[width - 1 - j],
        };
        let ghost before = out@;
        out.push(byte);
        proof {
            let all = ordered(le@, order);
            assert(all.take(j as int + 1) == all.take(j as int).push(all[j as int]));
            assert(out@ == start + all.take(j as int + 1));
        }
        j += 1;
    }
    proof {
        let all = ordered(le@, order);
        assert(all.take(width as int) == all);
    }
}

/// Reads the value of type `ty` whose bytes start at `pos`.
pub(crate) fn read_int(ty: IntType, bytes: &[u8], pos: usize, order: ByteOrder) -> (r: i128)
    requires
        pos + ty.spec_width() <= bytes@.len(),
    ensures
        r == bytes_int(ty, bytes@.subrange(pos as int, pos + ty.spec_width()), order),
        ty.admits(r as int),
{
    let width = ty.width();
    let len = bytes.len();
    let ghost chunk = bytes@.subrange(pos as int, pos + width);
    let ghost le = ordered(chunk, order);
    let mut acc: u128 = 0;
    let mut k: usize = width;
    while k > 0
        invariant
            k <= width <= 8,
            pos + width <= bytes@.len() == len,
            chunk == bytes@.subrange(pos as int, pos + width),
            le == ordered(chunk, order),
            acc == le_value(le.skip(k as int)),
        decreases k,
    {
        k -= 1;
        let byte = match order {
            ByteOrder::LittleEndian => bytes[pos + k],
            ByteOrder::BigEndian => bytes[pos + (width - 1 - k)],
        };
        proof {
            assert(le.skip(k as int).skip(1) == le.skip(k as int + 1));
            assert(le.skip(k as int)[0] == byte);
            lemma_le_value_bound(le.skip(k as int + 1));
            lemma_radix_bound((width - k - 1) as nat);
        }
        acc = acc * 256 + byte as u128;
    }
    proof {
        assert(le.skip(0) == le);
        law_bytes_round_trip(ty, chunk, order);
        lemma_le_value_bound(le);
        lemma_radix_bound(width as nat);
    }
    let modulus = ty.modulus_value();
    if ty.is_signed() && acc >= (modulus / 2) as u128 {
        acc as i128 - modulus
    } else {
        acc as i128
    }
}

} // verus!
