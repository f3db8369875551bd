//! Message text: literals and numbers put together into a `String`.

use vstd::prelude::*;

verus! {

/// One piece of a message.
#[derive(Debug, Clone, Copy)]
pub enum Piece {
    /// Text as it stands.
    Lit(&'static str),
    /// A number in decimal.
    Num(u64),
    /// A signed number in decimal.
    Int(i32),
    /// A number in eight hexadecimal digits.
    Hex8(u32),
    /// A byte in two hexadecimal digits.
    Hex2(u8),
}

/// The hexadecimal digit with value `d`.
pub open spec fn digit(d: int) -> Seq<char> {
    if d == 0 {
        "0"@
    } else if d == 1 {
        "1"@
    } else if d == 2 {
        "2"@
    } else if d == 3 {
        "3"@
    } else if d == 4 {
        "4"@
    } else if d == 5 {
        "5"@
    } else if d == 6 {
        "6"@
    } else if d == 7 {
        "7"@
    } else if d == 8 {
        "8"@
    } else if d == 9 {
        "9"@
    } else if d == 10 {
        "a"@
    } else if d == 11 {
        "b"@
    } else if d == 12 {
        "c"@
    } else if d == 13 {
        "d"@
    } else if d == 14 {
        "e"@
    } else {
        "f"@
    }
}

/// `n` in decimal.
pub open spec fn decimal(n: nat) -> Seq<char>
    decreases n,
{
    if n < 10 {
        digit(n as int)
    } else {
        decimal(n / 10) + digit((n % 10) as int)
    }
}

/// The lowest `width` hexadecimal digits of `n`.
pub open spec fn hexadecimal(n: nat, width: nat) -> Seq<char>
    decreases width,
{
    if width == 0 {
        Seq::empty()
    } else {
        hexadecimal(n / 16, (width - 1) as nat) + digit((n % 16) as int)
    }
}

/// The text of one piece.
pub open spec fn piece_text(p: Piece) -> Seq<char> {
    match p {
        Piece::Lit(s) => s@,
        Piece::Num(n) => decimal(n as nat),
        Piece::Int(n) => if n < 0 {
            "-"@ + decimal((0 - n) as nat)
        } else {
            decimal(n as nat)
        },
        Piece::Hex8(n) => hexadecimal(n as nat, 8),
        Piece::Hex2(n) => hexadecimal(n as nat, 2),
    }
}

/// The text of a list of pieces: their texts in order.
pub open spec fn text_of(parts: Seq<Piece>) -> Seq<char>
    decreases parts.len(),
{
    if parts.len() == 0 {
        Seq::empty()
    } else {
        text_of(parts.drop_last()) + piece_text(parts.last())
    }
}

/// The digit with value `d`.
fn digit_str(d: u64) -> (s: &'static str)
    requires
        d < 16,
    ensures
        s@ == digit(d as int),
{
    if d == 0 {
        "0"
    } else if d == 1 {
        "1"
    } else if d == 2 {
        "2"
    } else if d == 3 {
        "3"
    } else if d == 4 {
        "4"
    } else if d == 5 {
        "5"
    } else if d == 6 {
        "6"
    } else if d == 7 {
        "7"
    } else if d == 8 {
        "8"
    } else if d == 9 {
        "9"
    } else if d == 10 {
        "a"
    } else if d == 11 {
        "b"
    } else if d == 12 {
        "c"
    } else if d == 13 {
        "d"
    } else if d == 14 {
        "e"
    } else {
        "f"
    }
}

/// Appends `n` in decimal.
fn push_decimal(out: &mut String, n: u64)
    ensures
        final(out)@ == old(out)@ + decimal(n as nat),
    decreases n,
{
    if n >= 10 {
        push_decimal(out, n / 10);
    }
    out.append(digit_str(n % 10));
    assert(out@ =~= old(out)@ + decimal(n as nat));
}

/// Appends the lowest `width` hexadecimal digits of `n`.
fn push_hexadecimal(out: &mut String, n: u64, width: u8)
    ensures
        final(out)@ == old(out)@ + hexadecimal(n as nat, width as nat),
    decreases width,
{
    if width > 0 {
        push_hexadecimal(out, n / 16, width - 1);
        out.append(digit_str(n % 16));
    }
    assert(out@ =~= old(out)@ + hexadecimal(n as nat, width as nat));
}

/// Appends the text of one piece.
fn push_piece(out: &mut String, p: &Piece)
    ensures
        final(out)@ == old(out)@ + piece_text(*p),
{
    match *p {
        Piece::Lit(s) => out.append(s),
        Piece::Num(n) => push_decimal(out, n),
        Piece::Int(n) => {
            if n < 0 {
                out.append("-");
                let m: i64 = -(n as i64);
                push_decimal(out, m as u64);
            } else {
                push_decimal(out, n as u64);
            }
        },
        Piece::Hex8(n) => push_hexadecimal(out, n as u64, 8),
        Piece::Hex2(n) => push_hexadecimal(out, n as u64, 2),
    }
    assert(out@ =~= old(out)@ + piece_text(*p));
}

/// The text of a list of pieces.
pub fn render(parts: &Vec<Piece>) -> (r: String)
    ensures
        r@ == text_of(parts@),
{
    let mut out: String = String::new();
    let mut i: usize = 0;
    assert(out@ =~= text_of(parts@.take(0)));
    while i < parts.len()
        invariant
            i <= parts@.len(),
            out@ == text_of(parts@.take(i as int)),
        decreases parts@.len() - i,
    {
        push_piece(&mut out, &parts[i]);
        i = i + 1;
        assert(parts@.take(i as int).drop_last() =~= parts@.take(i - 1));
    }
    assert(parts@.take(i as int) =~= parts@);
    out
}

/// The pieces of `front` followed by those of `back`.
pub fn joined(front: Vec<Piece>, back: Vec<Piece>) -> (r: Vec<Piece>)
    ensures
        r@ == front@ + back@,
{
    let mut r: Vec<Piece> = front;
    let mut b: Vec<Piece> = back;
    r.append(&mut b);
    r
}

} // verus!
